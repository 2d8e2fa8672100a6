//! Cross-document semantic validation for descriptor-local references.

use vstd::prelude::*;

use crate::catalog::{Code, PARENT_DEPTH_MAX};
use crate::graph::{
    canonical_cycle, copy_chars, cycle_views, cycles, holds, lemma_map_of_pairs, map_of, nodes, pair_views,
    pairs_map, successor,
};
use crate::json::{get, member, Json};
use crate::result::{pointer_of, push_pointer, push_segment, Advisory, AdvisoryView, Finding, FindingView, Segment};
use crate::shape::{
    contains_key, indexed_objects, keys_view, listed, listing, normalize, normalize_id,
    id_value, id_str, EntityIndex, EntityKind,
};
use crate::text::{push_chars, push_str, string_of};

verus! {

// ---------------------------------------------------------------------------
// The descriptor as a graph of sources and sections

/// The sources of a descriptor: the object items of its `sources` array, each
/// with its position.
pub open spec fn sources_of(d: Json) -> Seq<(int, Seq<(String, Json)>)> {
    listed(get(d, "sources"@))
}

/// The sections of a descriptor: the object items of its `sections` array,
/// each with its position.
pub open spec fn sections_of(d: Json) -> Seq<(int, Seq<(String, Json)>)> {
    listed(get(d, "sections"@))
}

/// The well-formed id of an object.
pub open spec fn id_of(m: Seq<(String, Json)>) -> Option<Seq<char>> {
    id_str(member(m, "id"@))
}

/// The normalized well-formed id of an object.
pub open spec fn id_key(m: Seq<(String, Json)>) -> Option<Seq<char>> {
    match id_of(m) {
        Some(t) => Some(normalize(t)),
        None => None,
    }
}

/// Some object of `list` has the well-formed id whose normalized form is `key`.
pub open spec fn declares(list: Seq<(int, Seq<(String, Json)>)>, key: Seq<char>) -> bool {
    exists|k: int| 0 <= k < list.len() && #[trigger] id_key(list[k].1) == Some(key)
}

/// The object lists and declared ids of a descriptor.
pub struct Graph<'d> {
    /// Source objects with their positions.
    pub sources: Vec<(usize, &'d Vec<(String, Json)>)>,
    /// Section objects with their positions.
    pub sections: Vec<(usize, &'d Vec<(String, Json)>)>,
    /// Normalized ids of the sources and of the sections.
    pub entities: EntityIndex,
}

/// `g` is the graph of descriptor `d`.
pub open spec fn graph_of(g: Graph, d: Json) -> bool {
    &&& listing(g.sources@) == sources_of(d)
    &&& listing(g.sections@) == sections_of(d)
    &&& forall|key: Seq<char>|
        #[trigger] g.entities.knows(EntityKind::Source, key) <==> declares(sources_of(d), key)
    &&& forall|key: Seq<char>|
        #[trigger] g.entities.knows(EntityKind::Section, key) <==> declares(sections_of(d), key)
}

/// The normalized ids of the objects of a listing.
fn ids(items: &Vec<(usize, &Vec<(String, Json)>)>) -> (keys: Vec<Vec<char>>)
    ensures
        forall|key: Seq<char>|
            keys_view(keys@).contains(key) <==> declares(listing(items@), key),
{
    let mut keys: Vec<Vec<char>> = Vec::new();
    let mut i: usize = 0;
    while i < items.len()
        invariant
            0 <= i <= items@.len(),
            forall|key: Seq<char>|
                keys_view(keys@).contains(key) <==> declares(listing(items@).subrange(0, i as int), key),
        decreases items@.len() - i,
    {
        let ghost old_keys = keys@;
        let ghost l = listing(items@);
        let ghost pre = l.subrange(0, i as int);
        assert(forall|key: Seq<char>| keys_view(old_keys).contains(key) <==> declares(pre, key));
        let ghost next = l.subrange(0, i + 1);
        let id = id_value(crate::json::member_of(items[i].1, "id"));
        proof {
            assert(l[i as int].1 == items@[i as int].1@);
        }
        match id {
            Some(t) => {
                keys.push(normalize_id(t));
            },
            None => {},
        }
        proof {
            assert forall|key: Seq<char>| keys_view(keys@).contains(key) <==> declares(next, key) by {
                if keys_view(keys@).contains(key) {
                    let m = choose|m: int| 0 <= m < keys_view(keys@).len() && keys_view(keys@)[m] == key;
                    if m < old_keys.len() {
                        assert(keys_view(old_keys)[m] == key);
                        assert(keys_view(old_keys).contains(key));
                        assert(declares(pre, key));
                        let k = choose|k: int| 0 <= k < pre.len() && #[trigger] id_key(pre[k].1) == Some(key);
                        assert(next[k] == pre[k]);
                    } else {
                        assert(next[i as int] == l[i as int]);
                        assert(id_key(next[i as int].1) == Some(key));
                    }
                }
                if declares(next, key) {
                    let k = choose|k: int| 0 <= k < next.len() && #[trigger] id_key(next[k].1) == Some(key);
                    if k < i {
                        assert(pre[k] == next[k]);
                        assert(declares(pre, key));
                        assert(keys_view(old_keys).contains(key));
                        let m = choose|m: int| 0 <= m < keys_view(old_keys).len() && keys_view(old_keys)[m] == key;
                        assert(keys_view(keys@)[m] == key);
                    } else {
                        assert(next[k] == l[i as int]);
                        assert(keys_view(keys@)[old_keys.len() as int] == key);
                    }
                }
            }
        }
        i = i + 1;
    }
    assert(listing(items@).subrange(0, items@.len() as int) =~= listing(items@));
    keys
}

impl<'d> Graph<'d> {
    /// The graph of a descriptor; empty for a descriptor that is not an object.
    pub fn from_descriptor(descriptor: &'d Json) -> (g: Graph<'d>)
        ensures
            graph_of(g, *descriptor),
    {
        let sources = indexed_objects(descriptor.get("sources"));
        let sections = indexed_objects(descriptor.get("sections"));
        let source_ids = ids(&sources);
        let section_ids = ids(&sections);
        Graph { sources, sections, entities: EntityIndex { source_ids, section_ids } }
    }
}

// ---------------------------------------------------------------------------
// AKB001: ids unique across sources and sections

/// The member key of the array that holds entities of a kind.
pub open spec fn kind_key(kind: EntityKind) -> &'static str {
    match kind {
        EntityKind::Source => "sources",
        EntityKind::Section => "sections",
    }
}

/// The path of the `id` of the entity at `index` of its array.
pub open spec fn id_path(kind: EntityKind, index: int) -> Seq<Segment<'static>> {
    seq![Segment::Key(kind_key(kind)), Segment::Index(index as usize), Segment::Key("id")]
}

/// The well-formed ids of a listing, each with its kind and position.
pub open spec fn entries_of(kind: EntityKind, list: Seq<(int, Seq<(String, Json)>)>) -> Seq<
    (EntityKind, int, Seq<char>),
>
    decreases list.len(),
{
    if list.len() == 0 {
        seq![]
    } else {
        let rest = entries_of(kind, list.drop_last());
        match id_of(list.last().1) {
            Some(t) => rest.push((kind, list.last().0, t)),
            None => rest,
        }
    }
}

/// The well-formed ids of a descriptor: those of the sources, then those of the
/// sections.
pub open spec fn id_entries(d: Json) -> Seq<(EntityKind, int, Seq<char>)> {
    entries_of(EntityKind::Source, sources_of(d)) + entries_of(EntityKind::Section, sections_of(d))
}

/// The position of the first entry whose id has normalized form `key`.
pub open spec fn first_entry(entries: Seq<(EntityKind, int, Seq<char>)>, key: Seq<char>) -> Option<
    int,
>
    decreases entries.len(),
{
    if entries.len() == 0 {
        None
    } else {
        match first_entry(entries.drop_last(), key) {
            Some(i) => Some(i),
            None => if normalize(entries.last().2) == key {
                Some(entries.len() - 1)
            } else {
                None
            },
        }
    }
}

/// The message of a repeated id.
pub open spec fn duplicate_message(value: Seq<char>, first: Seq<char>) -> Seq<char> {
    "duplicate id \""@ + value + "\" first declared at "@ + first
}

/// One `AKB001` finding for each entry whose normalized id an earlier entry
/// already has, naming the first such entry.
pub open spec fn duplicate_findings(entries: Seq<(EntityKind, int, Seq<char>)>) -> Seq<FindingView>
    decreases entries.len(),
{
    if entries.len() == 0 {
        seq![]
    } else {
        let prev = entries.drop_last();
        let e = entries.last();
        let rest = duplicate_findings(prev);
        match first_entry(prev, normalize(e.2)) {
            Some(i) => rest.push(
                FindingView {
                    code: Code::Akb001,
                    path: pointer_of(id_path(e.0, e.1)),
                    message: duplicate_message(e.2, pointer_of(id_path(prev[i].0, prev[i].1))),
                },
            ),
            None => rest,
        }
    }
}

/// The exec id entries of a listing.
fn push_entries<'d>(
    entries: &mut Vec<(EntityKind, usize, &'d str)>,
    kind: EntityKind,
    items: &Vec<(usize, &'d Vec<(String, Json)>)>,
)
    ensures
        entry_views(final(entries)@) == entry_views(old(entries)@) + entries_of(kind, listing(items@)),
{
    let ghost start = entry_views(entries@);
    let mut i: usize = 0;
    while i < items.len()
        invariant
            0 <= i <= items@.len(),
            entry_views(entries@) == start + entries_of(kind, listing(items@).subrange(0, i as int)),
        decreases items@.len() - i,
    {
        let ghost l = listing(items@);
        let ghost next = l.subrange(0, i + 1);
        assert(next.drop_last() =~= l.subrange(0, i as int));
        assert(next.last() == l[i as int]);
        let ghost before = entries@;
        match id_value(crate::json::member_of(items[i].1, "id")) {
            Some(t) => {
                entries.push((kind, items[i].0, t));
                assert(entry_views(entries@) =~= entry_views(before).push((kind, items@[i as int].0 as int, t@)));
            },
            None => {},
        }
        i = i + 1;
    }
    assert(listing(items@).subrange(0, items@.len() as int) =~= listing(items@));
}

/// The values of exec id entries.
pub open spec fn entry_views(entries: Seq<(EntityKind, usize, &str)>) -> Seq<(EntityKind, int, Seq<char>)> {
    entries.map_values(|e: (EntityKind, usize, &str)| (e.0, e.1 as int, e.2@))
}

/// The ids of the graph's sources, then of its sections.
fn id_entries_of<'d>(graph: &Graph<'d>) -> (entries: Vec<(EntityKind, usize, &'d str)>)
    ensures
        entry_views(entries@) == entries_of(EntityKind::Source, listing(graph.sources@))
            + entries_of(EntityKind::Section, listing(graph.sections@)),
{
    let mut entries: Vec<(EntityKind, usize, &'d str)> = Vec::new();
    assert(entry_views(entries@) =~= seq![]);
    push_entries(&mut entries, EntityKind::Source, &graph.sources);
    push_entries(&mut entries, EntityKind::Section, &graph.sections);
    assert(entry_views(entries@) =~= entries_of(EntityKind::Source, listing(graph.sources@))
            + entries_of(EntityKind::Section, listing(graph.sections@)));
    entries
}

/// The pointer of the `id` of the entity at `index` of its array.
fn id_pointer(kind: EntityKind, index: usize) -> (p: Vec<char>)
    ensures
        p@ == pointer_of(id_path(kind, index as int)),
{
    let key = match kind {
        EntityKind::Source => "sources",
        EntityKind::Section => "sections",
    };
    let segments = [Segment::Key(key), Segment::Index(index), Segment::Key("id")];
    let mut p: Vec<char> = Vec::new();
    push_pointer(&mut p, &segments);
    assert(segments@ =~= id_path(kind, index as int));
    p
}

/// A finding from its parts.
pub fn make_finding(code: Code, path: &Vec<char>, message: &Vec<char>) -> (f: Finding)
    ensures
        f@ == (FindingView { code, path: path@, message: message@ }),
{
    Finding { code, path: string_of(path), message: string_of(message) }
}

/// `AKB001` findings for repeated ids.
fn duplicate_ids(entries: &Vec<(EntityKind, usize, &str)>) -> (findings: Vec<Finding>)
    ensures
        crate::result::finding_views(findings@) == duplicate_findings(entry_views(entries@)),
{
    let mut findings: Vec<Finding> = Vec::new();
    let mut first_seen: Vec<(Vec<char>, Vec<char>)> = Vec::new();
    let ghost ev = entry_views(entries@);
    let mut i: usize = 0;
    while i < entries.len()
        invariant
            0 <= i <= entries@.len(),
            ev == entry_views(entries@),
            crate::result::finding_views(findings@) == duplicate_findings(ev.subrange(0, i as int)),
            forall|key: Seq<char>|
                #![trigger crate::assoc::first_index(first_seen@, key)]
                match crate::assoc::first_index(first_seen@, key) {
                    Some(k) => first_entry(ev.subrange(0, i as int), key) matches Some(e)
                        && 0 <= e < i && first_seen@[k].1@ == pointer_of(id_path(ev[e].0, ev[e].1)),
                    None => first_entry(ev.subrange(0, i as int), key) is None,
                },
        decreases entries@.len() - i,
    {
        let ghost pre = ev.subrange(0, i as int);
        let ghost next = ev.subrange(0, i + 1);
        assert(next.drop_last() =~= pre);
        assert(next.last() == ev[i as int]);
        let (kind, index, value) = entries[i];
        let path = id_pointer(kind, index);
        let key = normalize_id(value);
        let ghost old_seen = first_seen@;
        let ghost old_findings = crate::result::finding_views(findings@);
        match crate::assoc::find_first(&first_seen, &key) {
            Some(k) => {
                proof {
                    crate::assoc::lemma_index_facts(first_seen@, key@);
                }
                let mut message: Vec<char> = Vec::new();
                push_str(&mut message, "duplicate id \"");
                push_str(&mut message, value);
                push_str(&mut message, "\" first declared at ");
                push_chars(&mut message, &first_seen[k].1);
                findings.push(make_finding(Code::Akb001, &path, &message));
                proof {
                    let e = first_entry(pre, key@)->0;
                    assert(pre[e] == ev[e]);
                    assert(crate::result::finding_views(findings@) =~= old_findings.push(
                        crate::result::finding_views(findings@).last(),
                    ));
                }
            },
            None => {
                first_seen.push((key, path));
                proof {
                    assert forall|k2: Seq<char>|
                        #![trigger crate::assoc::first_index(first_seen@, k2)]
                        match crate::assoc::first_index(first_seen@, k2) {
                            Some(k) => first_entry(next, k2) matches Some(e) && 0 <= e < i + 1
                                && first_seen@[k].1@ == pointer_of(id_path(ev[e].0, ev[e].1)),
                            None => first_entry(next, k2) is None,
                        } by {
                        crate::assoc::lemma_index_push(old_seen, (key, path), k2);
                        assert(first_seen@ == old_seen.push((key, path)));
                        match crate::assoc::first_index(old_seen, k2) {
                            Some(k) => {
                                crate::assoc::lemma_index_facts(old_seen, k2);
                                assert(first_seen@[k] == old_seen[k]);
                            },
                            None => {},
                        }
                    }
                }
            },
        }
        proof {
            assert forall|k2: Seq<char>|
                #![trigger crate::assoc::first_index(first_seen@, k2)]
                match crate::assoc::first_index(first_seen@, k2) {
                    Some(k) => first_entry(next, k2) matches Some(e) && 0 <= e < i + 1
                        && first_seen@[k].1@ == pointer_of(id_path(ev[e].0, ev[e].1)),
                    None => first_entry(next, k2) is None,
                } by {
                if first_seen@ == old_seen {
                    match crate::assoc::first_index(old_seen, k2) {
                        Some(k) => {},
                        None => {},
                    }
                }
            }
        }
        i = i + 1;
    }
    assert(ev.subrange(0, entries@.len() as int) =~= ev);
    findings
}

// ---------------------------------------------------------------------------
// AKB002: every section has content or a child

/// The normalized well-formed `parent_id` of a section.
pub open spec fn parent_key(m: Seq<(String, Json)>) -> Option<Seq<char>> {
    match id_str(member(m, "parent_id"@)) {
        Some(t) => Some(normalize(t)),
        None => None,
    }
}

/// Some section names the normalized id `key` as its parent.
pub open spec fn names_as_parent(sections: Seq<(int, Seq<(String, Json)>)>, key: Seq<char>) -> bool {
    exists|k: int| 0 <= k < sections.len() && #[trigger] parent_key(sections[k].1) == Some(key)
}

/// The message of a section with neither content nor a child.
pub open spec fn empty_message(id: Seq<char>) -> Seq<char> {
    "section \""@ + id + "\" has neither content_uri nor a child section"@
}

/// One `AKB002` finding for each section of `sections` with a well-formed id, no
/// `content_uri` member and no section of `all` naming it as parent.
pub open spec fn empty_findings(
    sections: Seq<(int, Seq<(String, Json)>)>,
    all: Seq<(int, Seq<(String, Json)>)>,
) -> Seq<FindingView>
    decreases sections.len(),
{
    if sections.len() == 0 {
        seq![]
    } else {
        let rest = empty_findings(sections.drop_last(), all);
        let (p, m) = sections.last();
        match id_of(m) {
            Some(t) => if member(m, "content_uri"@) is None && !names_as_parent(all, normalize(t)) {
                rest.push(
                    FindingView {
                        code: Code::Akb002,
                        path: pointer_of(seq![Segment::Key("sections"), Segment::Index(p as usize)]),
                        message: empty_message(t),
                    },
                )
            } else {
                rest
            },
            None => rest,
        }
    }
}

/// A listed section with a well-formed id, no `content_uri` member and no
/// section of `all` naming it as parent gets its `AKB002` finding.
proof fn lemma_empty_findings_has(
    sections: Seq<(int, Seq<(String, Json)>)>,
    all: Seq<(int, Seq<(String, Json)>)>,
    k: int,
    id: Seq<char>,
)
    requires
        0 <= k < sections.len(),
        id_of(sections[k].1) == Some(id),
        member(sections[k].1, "content_uri"@) is None,
        !names_as_parent(all, normalize(id)),
    ensures
        empty_findings(sections, all).contains(
            FindingView {
                code: Code::Akb002,
                path: pointer_of(seq![Segment::Key("sections"), Segment::Index(sections[k].0 as usize)]),
                message: empty_message(id),
            },
        ),
    decreases sections.len(),
{
    let rest = empty_findings(sections.drop_last(), all);
    let r = empty_findings(sections, all);
    if k == sections.len() - 1 {
        assert(r.last() == FindingView {
            code: Code::Akb002,
            path: pointer_of(seq![Segment::Key("sections"), Segment::Index(sections[k].0 as usize)]),
            message: empty_message(id),
        });
        assert(r[r.len() - 1] == r.last());
    } else {
        lemma_empty_findings_has(sections.drop_last(), all, k, id);
        let x = choose|j: int| 0 <= j < rest.len() && rest[j] == FindingView {
            code: Code::Akb002,
            path: pointer_of(seq![Segment::Key("sections"), Segment::Index(sections[k].0 as usize)]),
            message: empty_message(id),
        };
        assert(r[x] == rest[x]);
    }
}

/// A section with a well-formed id, no `content_uri` member and no section
/// naming it (casefolded) as parent is reported empty: `AKB002` at
/// `/sections/<i>`, in either mode, whether or not it has a parent itself.
pub proof fn lemma_empty_section_reported(
    d: Json,
    mode: crate::validator::Mode,
    items: Vec<Json>,
    i: int,
    m: Vec<(String, Json)>,
    id: Seq<char>,
)
    requires
        get(d, "sections"@) == Some(Json::Array(items)),
        0 <= i < items@.len(),
        items@[i] == Json::Object(m),
        id_str(member(m@, "id"@)) == Some(id),
        member(m@, "content_uri"@) is None,
        forall|j: int|
            0 <= j < items@.len() && (#[trigger] items@[j]) is Object && id_str(
                member(items@[j]->Object_0@, "parent_id"@),
            ) is Some ==> normalize(id_str(member(items@[j]->Object_0@, "parent_id"@))->Some_0) != normalize(id),
    ensures
        crate::validator::validation_finding(
            d,
            mode,
            FindingView {
                code: Code::Akb002,
                path: pointer_of(seq![Segment::Key("sections"), Segment::Index(i as usize)]),
                message: empty_message(id),
            },
        ),
{
    let l = sections_of(d);
    crate::shape::lemma_listed_objects(items);
    let k = choose|k: int| 0 <= k < l.len() && #[trigger] l[k] == (i, m@);
    if names_as_parent(l, normalize(id)) {
        let j = choose|j: int| 0 <= j < l.len() && #[trigger] parent_key(l[j].1) == Some(normalize(id));
        let (q, n) = l[j];
        assert(id_str(member(items@[q]->Object_0@, "parent_id"@)) is Some);
    }
    lemma_empty_findings_has(l, l, k, id);
}

/// The normalized well-formed parent ids of a listing of sections.
fn parent_keys(sections: &Vec<(usize, &Vec<(String, Json)>)>) -> (keys: Vec<Vec<char>>)
    ensures
        forall|key: Seq<char>|
            keys_view(keys@).contains(key) <==> names_as_parent(listing(sections@), key),
{
    let mut keys: Vec<Vec<char>> = Vec::new();
    let ghost l = listing(sections@);
    let mut i: usize = 0;
    while i < sections.len()
        invariant
            0 <= i <= sections@.len(),
            l == listing(sections@),
            forall|key: Seq<char>|
                keys_view(keys@).contains(key) <==> names_as_parent(l.subrange(0, i as int), key),
        decreases sections@.len() - i,
    {
        let ghost old_keys = keys@;
        let ghost pre = l.subrange(0, i as int);
        let ghost next = l.subrange(0, i + 1);
        assert(forall|key: Seq<char>| keys_view(old_keys).contains(key) <==> names_as_parent(pre, key));
        assert(l[i as int].1 == sections@[i as int].1@);
        match id_value(crate::json::member_of(sections[i].1, "parent_id")) {
            Some(t) => {
                keys.push(normalize_id(t));
            },
            None => {},
        }
        proof {
            assert forall|key: Seq<char>| keys_view(keys@).contains(key) <==> names_as_parent(next, key) by {
                if keys_view(keys@).contains(key) {
                    let m = choose|m: int| 0 <= m < keys_view(keys@).len() && keys_view(keys@)[m] == key;
                    if m < old_keys.len() {
                        assert(keys_view(old_keys)[m] == key);
                        assert(keys_view(old_keys).contains(key));
                        let k = choose|k: int| 0 <= k < pre.len() && #[trigger] parent_key(pre[k].1) == Some(key);
                        assert(next[k] == pre[k]);
                    } else {
                        assert(next[i as int] == l[i as int]);
                        assert(parent_key(next[i as int].1) == Some(key));
                    }
                }
                if names_as_parent(next, key) {
                    let k = choose|k: int| 0 <= k < next.len() && #[trigger] parent_key(next[k].1) == Some(key);
                    if k < i {
                        assert(pre[k] == next[k]);
                        assert(names_as_parent(pre, key));
                        assert(keys_view(old_keys).contains(key));
                        let m = choose|m: int| 0 <= m < keys_view(old_keys).len() && keys_view(old_keys)[m] == key;
                        assert(keys_view(keys@)[m] == key);
                    } else {
                        assert(next[k] == l[i as int]);
                        assert(keys_view(keys@)[old_keys.len() as int] == key);
                    }
                }
            }
        }
        i = i + 1;
    }
    assert(l.subrange(0, sections@.len() as int) =~= l);
    keys
}

/// `AKB002` findings for sections with neither content nor a child.
fn empty_sections(graph: &Graph) -> (findings: Vec<Finding>)
    ensures
        crate::result::finding_views(findings@) == empty_findings(
            listing(graph.sections@),
            listing(graph.sections@),
        ),
{
    let children = parent_keys(&graph.sections);
    let ghost l = listing(graph.sections@);
    let mut findings: Vec<Finding> = Vec::new();
    let mut i: usize = 0;
    while i < graph.sections.len()
        invariant
            0 <= i <= graph.sections@.len(),
            l == listing(graph.sections@),
            forall|key: Seq<char>| keys_view(children@).contains(key) <==> names_as_parent(l, key),
            crate::result::finding_views(findings@) == empty_findings(l.subrange(0, i as int), l),
        decreases graph.sections@.len() - i,
    {
        let ghost next = l.subrange(0, i + 1);
        assert(next.drop_last() =~= l.subrange(0, i as int));
        assert(next.last() == l[i as int]);
        let (index, section) = graph.sections[i];
        let ghost old_findings = crate::result::finding_views(findings@);
        match id_value(crate::json::member_of(section, "id")) {
            Some(id) => {
                let has_content = crate::json::member_of(section, "content_uri").is_some();
                let key = normalize_id(id);
                if !has_content && !contains_key(&children, &key) {
                    let segments = [Segment::Key("sections"), Segment::Index(index)];
                    let mut path: Vec<char> = Vec::new();
                    push_pointer(&mut path, &segments);
                    assert(segments@ =~= seq![Segment::Key("sections"), Segment::Index(index)]);
                    let mut message: Vec<char> = Vec::new();
                    push_str(&mut message, "section \"");
                    push_str(&mut message, id);
                    push_str(&mut message, "\" has neither content_uri nor a child section");
                    findings.push(make_finding(Code::Akb002, &path, &message));
                    assert(crate::result::finding_views(findings@) =~= old_findings.push(
                        crate::result::finding_views(findings@).last(),
                    ));
                }
            },
            None => {},
        }
        i = i + 1;
    }
    assert(l.subrange(0, graph.sections@.len() as int) =~= l);
    findings
}

// ---------------------------------------------------------------------------
// AKB007 / AKB010 / AKB011: references

/// The entities of a kind.
pub open spec fn list_of(kind: EntityKind, d: Json) -> Seq<(int, Seq<(String, Json)>)> {
    match kind {
        EntityKind::Source => sources_of(d),
        EntityKind::Section => sections_of(d),
    }
}

/// The code for a reference `id` that must name an entity of kind
/// `expected`; see [`crate::shape::reference_code_of`], with the entities
/// the descriptor declares.
pub open spec fn reference_code_in(d: Json, id: Seq<char>, expected: EntityKind) -> Option<Code> {
    match crate::shape::kind_of_id(id) {
        Some(kind) => if kind != expected {
            Some(Code::Akb010)
        } else if declares(list_of(expected, d), normalize(id)) {
            None
        } else {
            Some(Code::Akb007)
        },
        None => if !crate::shape::plain_id(id) || declares(list_of(expected, d), normalize(id)) {
            None
        } else if declares(list_of(crate::shape::other_kind(expected), d), normalize(id)) {
            Some(Code::Akb010)
        } else {
            Some(Code::Akb007)
        },
    }
}

/// The message of a reference finding: a wrong-kind reference names the
/// kind it has, the other one.
pub open spec fn reference_message(code: Code, id: Seq<char>, expected: EntityKind) -> Seq<char> {
    if code == Code::Akb010 {
        "reference \""@ + id + "\" is a "@ + crate::shape::noun_of(crate::shape::other_kind(expected))
            + " id where a "@ + crate::shape::noun_of(expected) + " is required"@
    } else {
        "unresolved reference \""@ + id + "\"; no declared "@ + crate::shape::noun_of(expected)
            + " has this id"@
    }
}

/// The finding, if any, for a reference value at `path`.
pub open spec fn ref_findings(d: Json, value: Option<Json>, expected: EntityKind, path: Seq<char>) -> Seq<
    FindingView,
> {
    match crate::json::str_of(value) {
        Some(id) => match reference_code_in(d, id, expected) {
            Some(code) => seq![
                FindingView { code, path, message: reference_message(code, id, expected) },
            ],
            None => seq![],
        },
        None => seq![],
    }
}

pub(crate) proof fn lemma_reference_code(g: Graph, d: Json, id: Seq<char>, expected: EntityKind)
    requires
        graph_of(g, d),
    ensures
        crate::shape::reference_code_of(id, expected, g.entities) == reference_code_in(d, id, expected),
{
    assert(g.entities.knows(expected, normalize(id)) == declares(list_of(expected, d), normalize(id)));
    let other = crate::shape::other_kind(expected);
    assert(g.entities.knows(other, normalize(id)) == declares(list_of(other, d), normalize(id)));
}

/// Appends the message of a reference finding to `out`.
pub(crate) fn push_reference_message(out: &mut Vec<char>, code: Code, id: &str, expected: EntityKind)
    ensures
        final(out)@ == old(out)@ + reference_message(code, id@, expected),
{
    if code == Code::Akb010 {
        push_str(out, "reference \"");
        push_str(out, id);
        push_str(out, "\" is a ");
        push_str(out, expected.other().noun());
        push_str(out, " id where a ");
        push_str(out, expected.noun());
        push_str(out, " is required");
    } else {
        push_str(out, "unresolved reference \"");
        push_str(out, id);
        push_str(out, "\"; no declared ");
        push_str(out, expected.noun());
        push_str(out, " has this id");
    }
}

/// Appends the finding, if any, for a reference value at `path`.
fn append_ref(
    findings: &mut Vec<Finding>,
    graph: &Graph,
    Ghost(d): Ghost<Json>,
    expected: EntityKind,
    value: Option<&Json>,
    path: &Vec<char>,
)
    requires
        graph_of(*graph, d),
    ensures
        crate::result::finding_views(final(findings)@) == crate::result::finding_views(old(findings)@)
            + ref_findings(d, crate::shape::opt(value), expected, path@),
{
    let ghost before = crate::result::finding_views(findings@);
    match crate::json::str_in(value) {
        Some(id) => {
            let code = crate::shape::reference_code_id(id, expected, &graph.entities);
            proof {
                lemma_reference_code(*graph, d, id@, expected);
            }
            match code {
                Some(code) => {
                    let mut message: Vec<char> = Vec::new();
                    push_reference_message(&mut message, code, id, expected);
                    findings.push(make_finding(code, path, &message));
                    assert(crate::result::finding_views(findings@) =~= before + ref_findings(
                        d,
                        crate::shape::opt(value),
                        expected,
                        path@,
                    ));
                },
                None => {
                    assert(ref_findings(d, crate::shape::opt(value), expected, path@) =~= seq![]);
                },
            }
        },
        None => {
            assert(ref_findings(d, crate::shape::opt(value), expected, path@) =~= seq![]);
        },
    }
    assert(crate::result::finding_views(findings@) =~= before + ref_findings(
        d,
        crate::shape::opt(value),
        expected,
        path@,
    ));
}

/// The reference findings of the items of a `source_ids` array at `prefix`.
pub open spec fn item_ref_findings(d: Json, items: Seq<Json>, prefix: Seq<char>) -> Seq<FindingView>
    decreases items.len(),
{
    if items.len() == 0 {
        seq![]
    } else {
        item_ref_findings(d, items.drop_last(), prefix) + ref_findings(
            d,
            Some(items.last()),
            EntityKind::Source,
            prefix + seq!['/'] + crate::text::decimal((items.len() - 1) as nat),
        )
    }
}

/// The message of a repeated source id.
pub open spec fn repeated_source_message(item: Json) -> Seq<char> {
    "duplicate source id \""@ + (match item {
        Json::Str(t) => t@,
        _ => Seq::empty(),
    }) + "\" (case-insensitive) within this array"@
}

/// The `AKB011` findings of the repeated items at `positions`.
pub open spec fn repeated_findings(items: Seq<Json>, positions: Seq<int>, prefix: Seq<char>) -> Seq<
    FindingView,
>
    decreases positions.len(),
{
    if positions.len() == 0 {
        seq![]
    } else {
        let j = positions.last();
        repeated_findings(items, positions.drop_last(), prefix).push(
            FindingView {
                code: Code::Akb011,
                path: prefix + seq!['/'] + crate::text::decimal(j as nat),
                message: repeated_source_message(items[j]),
            },
        )
    }
}

/// The findings of a `source_ids` value at `prefix`: one per unresolved or
/// wrong-kind item, then one per item that repeats an earlier one casefolded.
pub open spec fn source_ids_findings(d: Json, value: Option<Json>, prefix: Seq<char>) -> Seq<
    FindingView,
> {
    match crate::json::items_of(value) {
        Some(items) => item_ref_findings(d, items, prefix) + repeated_findings(
            items,
            crate::shape::casefolded_duplicates(items),
            prefix,
        ),
        None => seq![],
    }
}

/// Appends the findings of a `source_ids` value at `prefix`.
fn append_source_ids(
    findings: &mut Vec<Finding>,
    graph: &Graph,
    Ghost(d): Ghost<Json>,
    value: Option<&Json>,
    prefix: &Vec<char>,
)
    requires
        graph_of(*graph, d),
    ensures
        crate::result::finding_views(final(findings)@) == crate::result::finding_views(old(findings)@)
            + source_ids_findings(d, crate::shape::opt(value), prefix@),
{
    let ghost start = crate::result::finding_views(findings@);
    let items = match value {
        Some(Json::Array(items)) => items,
        _ => {
            assert(source_ids_findings(d, crate::shape::opt(value), prefix@) =~= seq![]);
            assert(crate::result::finding_views(findings@) =~= start + seq![]);
            return;
        },
    };
    let mut i: usize = 0;
    while i < items.len()
        invariant
            0 <= i <= items@.len(),
            graph_of(*graph, d),
            crate::result::finding_views(findings@) == start + item_ref_findings(
                d,
                items@.subrange(0, i as int),
                prefix@,
            ),
        decreases items@.len() - i,
    {
        let ghost next = items@.subrange(0, i + 1);
        assert(next.drop_last() =~= items@.subrange(0, i as int));
        assert(next.last() == items@[i as int]);
        let mut path: Vec<char> = prefix.clone();
        push_segment(&mut path, Segment::Index(i));
        let ghost mid = crate::result::finding_views(findings@);
        append_ref(findings, graph, Ghost(d), EntityKind::Source, Some(&items[i]), &path);
        assert(crate::result::finding_views(findings@) =~= start + item_ref_findings(d, next, prefix@));
        i = i + 1;
    }
    assert(items@.subrange(0, items@.len() as int) =~= items@);
    let ghost after_refs = crate::result::finding_views(findings@);
    let repeated = crate::shape::casefolded_duplicate_indices(items);
    let ghost positions = crate::shape::casefolded_duplicates(items@);
    proof {
        crate::shape::lemma_casefolded_duplicates_bounds(items@);
    }
    let mut k: usize = 0;
    while k < repeated.len()
        invariant
            0 <= k <= repeated@.len(),
            repeated@.len() == positions.len(),
            forall|m: int| 0 <= m < repeated@.len() ==> repeated@[m] as int == positions[m],
            forall|m: int|
                0 <= m < positions.len() ==> 0 <= #[trigger] positions[m] < items@.len()
                    && items@[positions[m]] is Str,
            crate::result::finding_views(findings@) == after_refs + repeated_findings(
                items@,
                positions.subrange(0, k as int),
                prefix@,
            ),
        decreases repeated@.len() - k,
    {
        let ghost next = positions.subrange(0, k + 1);
        assert(next.drop_last() =~= positions.subrange(0, k as int));
        assert(next.last() == positions[k as int]);
        let j = repeated[k];
        let mut path: Vec<char> = prefix.clone();
        push_segment(&mut path, Segment::Index(j));
        let mut message: Vec<char> = Vec::new();
        push_str(&mut message, "duplicate source id \"");
        match &items[j] {
            Json::Str(t) => push_str(&mut message, t.as_str()),
            _ => {},
        }
        push_str(&mut message, "\" (case-insensitive) within this array");
        let ghost mid = crate::result::finding_views(findings@);
        findings.push(make_finding(Code::Akb011, &path, &message));
        assert(crate::result::finding_views(findings@) =~= mid.push(crate::result::finding_views(findings@).last()));
        k = k + 1;
    }
    assert(positions.subrange(0, repeated@.len() as int) =~= positions);
    assert(crate::result::finding_views(findings@) =~= start + source_ids_findings(
        d,
        crate::shape::opt(value),
        prefix@,
    ));
}

/// The finding, if any, for the target of a link at `path` that also names
/// another AKB: only a typed source id there is reported (`AKB010`); whether
/// the target exists is not checked offline.
pub open spec fn cross_akb_findings(value: Option<Json>, path: Seq<char>) -> Seq<FindingView> {
    match crate::json::str_of(value) {
        Some(id) => if crate::shape::kind_of_id(id) == Some(EntityKind::Source) {
            seq![
                FindingView {
                    code: Code::Akb010,
                    path,
                    message: reference_message(Code::Akb010, id, EntityKind::Section),
                },
            ]
        } else {
            seq![]
        },
        None => seq![],
    }
}

/// The path of a link's `section_id`.
pub open spec fn link_path(section: int, link: int) -> Seq<char> {
    pointer_of(
        seq![
            Segment::Key("sections"),
            Segment::Index(section as usize),
            Segment::Key("links"),
            Segment::Index(link as usize),
            Segment::Key("section_id"),
        ],
    )
}

/// The findings of the links of section `section`.
pub open spec fn link_findings(d: Json, section: int, links: Seq<(int, Seq<(String, Json)>)>) -> Seq<
    FindingView,
>
    decreases links.len(),
{
    if links.len() == 0 {
        seq![]
    } else {
        let (l, m) = links.last();
        let target = member(m, "section_id"@);
        link_findings(d, section, links.drop_last()) + if member(m, "akb_uri"@) is Some {
            cross_akb_findings(target, link_path(section, l))
        } else {
            ref_findings(d, target, EntityKind::Section, link_path(section, l))
        }
    }
}

/// The path of a claim's `source_ids`.
pub open spec fn claim_path(section: int, claim: int) -> Seq<char> {
    pointer_of(
        seq![
            Segment::Key("sections"),
            Segment::Index(section as usize),
            Segment::Key("provenance"),
            Segment::Index(claim as usize),
            Segment::Key("source_ids"),
        ],
    )
}

/// The findings of the inline claims of section `section`.
pub open spec fn claim_findings(d: Json, section: int, claims: Seq<(int, Seq<(String, Json)>)>) -> Seq<
    FindingView,
>
    decreases claims.len(),
{
    if claims.len() == 0 {
        seq![]
    } else {
        let (c, m) = claims.last();
        claim_findings(d, section, claims.drop_last()) + source_ids_findings(
            d,
            member(m, "source_ids"@),
            claim_path(section, c),
        )
    }
}

/// The path of member `key` of the entity at `index` of array `array`.
pub open spec fn member_path(array: &'static str, index: int, key: &'static str) -> Seq<char> {
    pointer_of(seq![Segment::Key(array), Segment::Index(index as usize), Segment::Key(key)])
}

/// The reference findings of one section: its parent, its `source_ids`, its
/// links and its claims.
pub open spec fn section_ref_findings(d: Json, p: int, m: Seq<(String, Json)>) -> Seq<FindingView> {
    ref_findings(d, member(m, "parent_id"@), EntityKind::Section, member_path("sections", p, "parent_id"))
        + source_ids_findings(d, member(m, "source_ids"@), member_path("sections", p, "source_ids"))
        + link_findings(d, p, listed(member(m, "links"@))) + claim_findings(
        d,
        p,
        listed(member(m, "provenance"@)),
    )
}

/// The reference findings of the sources of `list`.
pub open spec fn sources_ref_findings(d: Json, list: Seq<(int, Seq<(String, Json)>)>) -> Seq<
    FindingView,
>
    decreases list.len(),
{
    if list.len() == 0 {
        seq![]
    } else {
        let (p, m) = list.last();
        sources_ref_findings(d, list.drop_last()) + ref_findings(
            d,
            member(m, "discovered_via_id"@),
            EntityKind::Source,
            member_path("sources", p, "discovered_via_id"),
        )
    }
}

/// The reference findings of the sections of `list`.
pub open spec fn sections_ref_findings(d: Json, list: Seq<(int, Seq<(String, Json)>)>) -> Seq<
    FindingView,
>
    decreases list.len(),
{
    if list.len() == 0 {
        seq![]
    } else {
        let (p, m) = list.last();
        sections_ref_findings(d, list.drop_last()) + section_ref_findings(d, p, m)
    }
}

/// All reference findings of a descriptor: its sources', then its sections'.
pub open spec fn reference_findings_of(d: Json) -> Seq<FindingView> {
    sources_ref_findings(d, sources_of(d)) + sections_ref_findings(d, sections_of(d))
}

/// The pointer of member `key` of the entity at `index` of array `array`.
fn member_pointer(array: &'static str, index: usize, key: &'static str) -> (p: Vec<char>)
    ensures
        p@ == member_path(array, index as int, key),
{
    let segments = [Segment::Key(array), Segment::Index(index), Segment::Key(key)];
    let mut p: Vec<char> = Vec::new();
    push_pointer(&mut p, &segments);
    assert(segments@ =~= seq![Segment::Key(array), Segment::Index(index), Segment::Key(key)]);
    p
}

/// Appends the findings of the links of section `section_index`.
fn append_link_findings(
    findings: &mut Vec<Finding>,
    graph: &Graph,
    Ghost(d): Ghost<Json>,
    section: &Vec<(String, Json)>,
    section_index: usize,
)
    requires
        graph_of(*graph, d),
    ensures
        crate::result::finding_views(final(findings)@) == crate::result::finding_views(old(findings)@)
            + link_findings(d, section_index as int, listed(member(section@, "links"@))),
{
    let ghost start = crate::result::finding_views(findings@);
    let links = indexed_objects(crate::json::member_of(section, "links"));
    let ghost l = listing(links@);
    let mut i: usize = 0;
    while i < links.len()
        invariant
            0 <= i <= links@.len(),
            graph_of(*graph, d),
            l == listing(links@),
            crate::result::finding_views(findings@) == start + link_findings(
                d,
                section_index as int,
                l.subrange(0, i as int),
            ),
        decreases links@.len() - i,
    {
        let ghost next = l.subrange(0, i + 1);
        assert(next.drop_last() =~= l.subrange(0, i as int));
        assert(next.last() == l[i as int]);
        let (link_index, link) = links[i];
        let segments = [
            Segment::Key("sections"),
            Segment::Index(section_index),
            Segment::Key("links"),
            Segment::Index(link_index),
            Segment::Key("section_id"),
        ];
        let mut path: Vec<char> = Vec::new();
        push_pointer(&mut path, &segments);
        assert(segments@ =~= seq![
            Segment::Key("sections"),
            Segment::Index(section_index),
            Segment::Key("links"),
            Segment::Index(link_index),
            Segment::Key("section_id"),
        ]);
        let target = crate::json::member_of(link, "section_id");
        let ghost mid = crate::result::finding_views(findings@);
        if crate::json::member_of(link, "akb_uri").is_some() {
            match crate::json::str_in(target) {
                Some(token) => {
                    if crate::shape::id_kind(token) == Some(EntityKind::Source) {
                        let mut message: Vec<char> = Vec::new();
                        push_reference_message(&mut message, Code::Akb010, token, EntityKind::Section);
                        findings.push(make_finding(Code::Akb010, &path, &message));
                        assert(crate::result::finding_views(findings@) =~= mid + cross_akb_findings(
                            crate::shape::opt(target),
                            path@,
                        ));
                    } else {
                        assert(crate::result::finding_views(findings@) =~= mid + cross_akb_findings(
                            crate::shape::opt(target),
                            path@,
                        ));
                    }
                },
                None => {
                    assert(crate::result::finding_views(findings@) =~= mid + cross_akb_findings(
                        crate::shape::opt(target),
                        path@,
                    ));
                },
            }
        } else {
            append_ref(findings, graph, Ghost(d), EntityKind::Section, target, &path);
        }
        assert(crate::result::finding_views(findings@) =~= start + link_findings(
            d,
            section_index as int,
            next,
        ));
        i = i + 1;
    }
    assert(l.subrange(0, links@.len() as int) =~= l);
}

/// Appends the findings of the inline claims of section `section_index`.
fn append_claim_findings(
    findings: &mut Vec<Finding>,
    graph: &Graph,
    Ghost(d): Ghost<Json>,
    section: &Vec<(String, Json)>,
    section_index: usize,
)
    requires
        graph_of(*graph, d),
    ensures
        crate::result::finding_views(final(findings)@) == crate::result::finding_views(old(findings)@)
            + claim_findings(d, section_index as int, listed(member(section@, "provenance"@))),
{
    let ghost start = crate::result::finding_views(findings@);
    let claims = indexed_objects(crate::json::member_of(section, "provenance"));
    let ghost l = listing(claims@);
    let mut i: usize = 0;
    while i < claims.len()
        invariant
            0 <= i <= claims@.len(),
            graph_of(*graph, d),
            l == listing(claims@),
            crate::result::finding_views(findings@) == start + claim_findings(
                d,
                section_index as int,
                l.subrange(0, i as int),
            ),
        decreases claims@.len() - i,
    {
        let ghost next = l.subrange(0, i + 1);
        assert(next.drop_last() =~= l.subrange(0, i as int));
        assert(next.last() == l[i as int]);
        let (claim_index, claim) = claims[i];
        let segments = [
            Segment::Key("sections"),
            Segment::Index(section_index),
            Segment::Key("provenance"),
            Segment::Index(claim_index),
            Segment::Key("source_ids"),
        ];
        let mut path: Vec<char> = Vec::new();
        push_pointer(&mut path, &segments);
        assert(segments@ =~= seq![
            Segment::Key("sections"),
            Segment::Index(section_index),
            Segment::Key("provenance"),
            Segment::Index(claim_index),
            Segment::Key("source_ids"),
        ]);
        append_source_ids(findings, graph, Ghost(d), crate::json::member_of(claim, "source_ids"), &path);
        assert(crate::result::finding_views(findings@) =~= start + claim_findings(
            d,
            section_index as int,
            next,
        ));
        i = i + 1;
    }
    assert(l.subrange(0, claims@.len() as int) =~= l);
}

/// Reference findings of all sources and sections.
fn reference_findings(graph: &Graph, Ghost(d): Ghost<Json>) -> (findings: Vec<Finding>)
    requires
        graph_of(*graph, d),
    ensures
        crate::result::finding_views(findings@) == reference_findings_of(d),
{
    let mut findings: Vec<Finding> = Vec::new();
    let ghost sources = sources_of(d);
    let ghost sections = sections_of(d);
    let mut i: usize = 0;
    assert(crate::result::finding_views(findings@) =~= seq![]);
    while i < graph.sources.len()
        invariant
            0 <= i <= graph.sources@.len(),
            graph_of(*graph, d),
            sources == listing(graph.sources@),
            crate::result::finding_views(findings@) == sources_ref_findings(d, sources.subrange(0, i as int)),
        decreases graph.sources@.len() - i,
    {
        let ghost next = sources.subrange(0, i + 1);
        assert(next.drop_last() =~= sources.subrange(0, i as int));
        assert(next.last() == sources[i as int]);
        let (index, source) = graph.sources[i];
        let path = member_pointer("sources", index, "discovered_via_id");
        append_ref(&mut findings, graph, Ghost(d), EntityKind::Source, crate::json::member_of(source, "discovered_via_id"), &path);
        i = i + 1;
    }
    assert(sources.subrange(0, graph.sources@.len() as int) =~= sources);
    let ghost after_sources = crate::result::finding_views(findings@);
    let mut i: usize = 0;
    while i < graph.sections.len()
        invariant
            0 <= i <= graph.sections@.len(),
            graph_of(*graph, d),
            sections == listing(graph.sections@),
            crate::result::finding_views(findings@) == after_sources + sections_ref_findings(
                d,
                sections.subrange(0, i as int),
            ),
        decreases graph.sections@.len() - i,
    {
        let ghost next = sections.subrange(0, i + 1);
        assert(next.drop_last() =~= sections.subrange(0, i as int));
        assert(next.last() == sections[i as int]);
        let (index, section) = graph.sections[i];
        let ghost mid = crate::result::finding_views(findings@);
        let parent_path = member_pointer("sections", index, "parent_id");
        append_ref(&mut findings, graph, Ghost(d), EntityKind::Section, crate::json::member_of(section, "parent_id"), &parent_path);
        let ids_path = member_pointer("sections", index, "source_ids");
        append_source_ids(&mut findings, graph, Ghost(d), crate::json::member_of(section, "source_ids"), &ids_path);
        append_link_findings(&mut findings, graph, Ghost(d), section, index);
        append_claim_findings(&mut findings, graph, Ghost(d), section, index);
        assert(crate::result::finding_views(findings@) =~= mid + section_ref_findings(d, index as int, section@));
        assert(crate::result::finding_views(findings@) =~= after_sources + sections_ref_findings(d, next));
        i = i + 1;
    }
    assert(sections.subrange(0, graph.sections@.len() as int) =~= sections);
    findings
}

// ---------------------------------------------------------------------------
// Keyed entries: the first spelling and the last position of each id

/// The position of the last entry whose id has normalized form `key`.
pub open spec fn last_entry(entries: Seq<(EntityKind, int, Seq<char>)>, key: Seq<char>) -> Option<int>
    decreases entries.len(),
{
    if entries.len() == 0 {
        None
    } else if normalize(entries.last().2) == key {
        Some(entries.len() - 1)
    } else {
        last_entry(entries.drop_last(), key)
    }
}

/// The normalized ids of the entries, each with its position in the list.
pub open spec fn keyed(entries: Seq<(EntityKind, int, Seq<char>)>, v: Seq<(Vec<char>, usize)>) -> bool {
    &&& v.len() == entries.len()
    &&& forall|j: int| 0 <= j < v.len() ==> (#[trigger] v[j]).0@ == normalize(entries[j].2) && v[j].1 == j
}

proof fn lemma_keyed(entries: Seq<(EntityKind, int, Seq<char>)>, v: Seq<(Vec<char>, usize)>, key: Seq<char>)
    requires
        keyed(entries, v),
    ensures
        crate::assoc::first_index(v, key) == first_entry(entries, key),
        crate::assoc::last_index(v, key) == last_entry(entries, key),
    decreases v.len(),
{
    if v.len() > 0 {
        assert(keyed(entries.drop_last(), v.drop_last()));
        lemma_keyed(entries.drop_last(), v.drop_last(), key);
        assert(v.last() == v[v.len() - 1]);
    }
}

/// Builds the keyed list of the entries.
fn keyed_entries(entries: &Vec<(EntityKind, usize, &str)>) -> (v: Vec<(Vec<char>, usize)>)
    ensures
        keyed(entry_views(entries@), v@),
{
    let mut v: Vec<(Vec<char>, usize)> = Vec::new();
    let mut j: usize = 0;
    while j < entries.len()
        invariant
            0 <= j <= entries@.len(),
            v@.len() == j,
            forall|k: int| 0 <= k < j ==> (#[trigger] v@[k]).0@ == normalize(entry_views(entries@)[k].2) && v@[k].1 == k,
        decreases entries@.len() - j,
    {
        v.push((normalize_id(entries[j].2), j));
        j = j + 1;
    }
    v
}

/// The first spelling of an id among the entries (the id itself when no
/// entry spells it).
pub open spec fn spelled(entries: Seq<(EntityKind, int, Seq<char>)>, id: Seq<char>) -> Seq<char> {
    match first_entry(entries, id) {
        Some(e) => entries[e].2,
        None => id,
    }
}

/// The first spelling of each id on a cycle.
pub open spec fn spell(entries: Seq<(EntityKind, int, Seq<char>)>, c: Seq<Seq<char>>) -> Seq<Seq<char>> {
    c.map_values(|id: Seq<char>| spelled(entries, id))
}

/// Ids joined by ` -> `.
pub open spec fn join_arrows(parts: Seq<Seq<char>>) -> Seq<char>
    decreases parts.len(),
{
    if parts.len() == 0 {
        seq![]
    } else if parts.len() == 1 {
        parts[0]
    } else {
        join_arrows(parts.drop_last()) + " -> "@ + parts.last()
    }
}

/// A cycle written out, its first id repeated at the end.
pub open spec fn render_cycle(parts: Seq<Seq<char>>) -> Seq<char> {
    join_arrows(parts.push(parts[0]))
}

proof fn lemma_entries_bounds(entries: Seq<(EntityKind, int, Seq<char>)>, key: Seq<char>)
    ensures
        first_entry(entries, key) matches Some(e) ==> 0 <= e < entries.len(),
        last_entry(entries, key) matches Some(e) ==> 0 <= e < entries.len(),
    decreases entries.len(),
{
    if entries.len() > 0 {
        lemma_entries_bounds(entries.drop_last(), key);
    }
}

/// Appends the first spelling of `id` to `out`.
fn push_spelled(
    out: &mut Vec<char>,
    entries: &Vec<(EntityKind, usize, &str)>,
    keys: &Vec<(Vec<char>, usize)>,
    id: &Vec<char>,
)
    requires
        keyed(entry_views(entries@), keys@),
    ensures
        final(out)@ == old(out)@ + spelled(entry_views(entries@), id@),
{
    proof {
        lemma_keyed(entry_views(entries@), keys@, id@);
        lemma_entries_bounds(entry_views(entries@), id@);
    }
    match crate::assoc::find_first(keys, id) {
        Some(e) => push_str(out, entries[e].2),
        None => push_chars(out, id.as_slice()),
    }
}

/// Appends the rendering of a cycle, spelled as first declared, to `out`.
fn push_cycle(
    out: &mut Vec<char>,
    entries: &Vec<(EntityKind, usize, &str)>,
    keys: &Vec<(Vec<char>, usize)>,
    c: &Vec<Vec<char>>,
)
    requires
        keyed(entry_views(entries@), keys@),
        c@.len() > 0,
    ensures
        final(out)@ == old(out)@ + render_cycle(spell(entry_views(entries@), nodes(c@))),
{
    let ghost ev = entry_views(entries@);
    let ghost names = spell(ev, nodes(c@));
    let ghost parts = names.push(names[0]);
    let ghost start = out@;
    let mut i: usize = 0;
    while i < c.len()
        invariant
            0 <= i <= c@.len(),
            c@.len() > 0,
            ev == entry_views(entries@),
            keyed(ev, keys@),
            names == spell(ev, nodes(c@)),
            parts == names.push(names[0]),
            out@ == start + join_arrows(parts.subrange(0, i as int)),
        decreases c@.len() - i,
    {
        if i > 0 {
            push_str(out, " -> ");
        }
        push_spelled(out, entries, keys, &c[i]);
        proof {
            let next = parts.subrange(0, i + 1);
            assert(next.drop_last() =~= parts.subrange(0, i as int));
            assert(next.last() == names[i as int]);
            if i == 0 {
                assert(join_arrows(next) == next[0]);
            }
        }
        i = i + 1;
    }
    push_str(out, " -> ");
    push_spelled(out, entries, keys, &c[0]);
    proof {
        assert(parts.drop_last() =~= parts.subrange(0, c@.len() as int));
        assert(parts.last() == names[0]);
    }
}

// ---------------------------------------------------------------------------
// AKB004: the parent tree is acyclic

/// The `(id, parent)` pairs of the sections of `list` whose well-formed
/// `parent_id` names a declared section, normalized, in order.
pub open spec fn parent_pairs(d: Json, list: Seq<(int, Seq<(String, Json)>)>) -> Seq<(Seq<char>, Seq<char>)>
    decreases list.len(),
{
    if list.len() == 0 {
        seq![]
    } else {
        let rest = parent_pairs(d, list.drop_last());
        let m = list.last().1;
        match (id_of(m), id_str(member(m, "parent_id"@))) {
            (Some(t), Some(q)) => if declares(sections_of(d), normalize(q)) {
                rest.push((normalize(t), normalize(q)))
            } else {
                rest
            },
            _ => rest,
        }
    }
}

/// Each section's parent: the map from normalized section ids to the
/// normalized id of the declared section their `parent_id` names (the last
/// section with an id wins).
pub open spec fn parent_map(d: Json) -> Map<Seq<char>, Seq<char>> {
    pairs_map(parent_pairs(d, sections_of(d)))
}

/// The parent pairs of the graph's sections.
fn parent_by_id(graph: &Graph, Ghost(d): Ghost<Json>) -> (pairs: Vec<(Vec<char>, Vec<char>)>)
    requires
        graph_of(*graph, d),
    ensures
        pair_views(pairs@) == parent_pairs(d, sections_of(d)),
        map_of(pairs@) == parent_map(d),
{
    let ghost l = sections_of(d);
    let mut pairs: Vec<(Vec<char>, Vec<char>)> = Vec::new();
    let mut i: usize = 0;
    while i < graph.sections.len()
        invariant
            0 <= i <= graph.sections@.len(),
            graph_of(*graph, d),
            l == listing(graph.sections@),
            pair_views(pairs@) == parent_pairs(d, l.subrange(0, i as int)),
        decreases graph.sections@.len() - i,
    {
        let ghost next = l.subrange(0, i + 1);
        assert(next.drop_last() =~= l.subrange(0, i as int));
        assert(next.last() == l[i as int]);
        let ghost before = pairs@;
        let section = graph.sections[i].1;
        let id = id_value(crate::json::member_of(section, "id"));
        let parent = id_value(crate::json::member_of(section, "parent_id"));
        match (id, parent) {
            (Some(id), Some(parent)) => {
                if graph.entities.contains_kind(EntityKind::Section, parent) {
                    pairs.push((normalize_id(id), normalize_id(parent)));
                    assert(pair_views(pairs@) =~= pair_views(before).push((normalize(id@), normalize(parent@))));
                }
            },
            _ => {},
        }
        i = i + 1;
    }
    assert(l.subrange(0, graph.sections@.len() as int) =~= l);
    proof {
        lemma_map_of_pairs(pairs@);
    }
    pairs
}

/// The report of cycle `c` of a successor map over the entries of the
/// `array` items: at member `key` of the last item declaring the cycle's first
/// id, naming the cycle as first spelled.
pub open spec fn cycle_report(
    entries: Seq<(EntityKind, int, Seq<char>)>,
    c: Seq<Seq<char>>,
    array: &'static str,
    key: &'static str,
) -> Option<(Seq<char>, Seq<char>)> {
    match last_entry(entries, c[0]) {
        Some(e) => Some(
            (
                member_path(array, entries[e].1, key),
                key@ + " cycle: "@ + render_cycle(spell(entries, c)),
            ),
        ),
        None => None,
    }
}

/// `r` reports a cycle of `m`.
pub open spec fn reports_cycle(
    m: Map<Seq<char>, Seq<char>>,
    entries: Seq<(EntityKind, int, Seq<char>)>,
    array: &'static str,
    key: &'static str,
    r: (Seq<char>, Seq<char>),
) -> bool {
    exists|c: Seq<Seq<char>>| canonical_cycle(m, c) && #[trigger] cycle_report(entries, c, array, key) == Some(r)
}

/// The `(path, message)` reports of the cycles of the successor list `next`,
/// one per cycle.
fn cycle_reports(
    entries: &Vec<(EntityKind, usize, &str)>,
    next: &Vec<(Vec<char>, Vec<char>)>,
    array: &'static str,
    key: &'static str,
) -> (reports: Vec<(Vec<char>, Vec<char>)>)
    ensures
        forall|r: (Seq<char>, Seq<char>)|
            pair_views(reports@).contains(r) <==> reports_cycle(map_of(next@), entry_views(entries@), array, key, r),
{
    let ghost ev = entry_views(entries@);
    let ghost m = map_of(next@);
    let keys = keyed_entries(entries);
    let found = cycles(next);
    let mut reports: Vec<(Vec<char>, Vec<char>)> = Vec::new();
    let mut i: usize = 0;
    while i < found.len()
        invariant
            0 <= i <= found@.len(),
            ev == entry_views(entries@),
            m == map_of(next@),
            keyed(ev, keys@),
            forall|c: Seq<Seq<char>>| cycle_views(found@).contains(c) <==> canonical_cycle(m, c),
            forall|r: (Seq<char>, Seq<char>)|
                pair_views(reports@).contains(r) <==> exists|k: int|
                    0 <= k < i && #[trigger] cycle_report(ev, cycle_views(found@)[k], array, key) == Some(r),
        decreases found@.len() - i,
    {
        let c = &found[i];
        let ghost cv = nodes(c@);
        assert(cycle_views(found@)[i as int] == cv);
        assert(cycle_views(found@).contains(cv));
        assert(canonical_cycle(m, cv));
        proof {
            crate::graph::lemma_cycle_nonempty(m, cv);
            lemma_keyed(ev, keys@, cv[0]);
            lemma_entries_bounds(ev, cv[0]);
        }
        let ghost before = pair_views(reports@);
        match crate::assoc::find_last(&keys, &c[0]) {
            Some(e) => {
                let path = member_pointer(array, entries[e].1, key);
                let mut message: Vec<char> = Vec::new();
                push_str(&mut message, key);
                push_str(&mut message, " cycle: ");
                push_cycle(&mut message, entries, &keys, c);
                reports.push((path, message));
                proof {
                    let f = pair_views(reports@);
                    assert(f =~= before.push(f.last()));
                    assert(cycle_report(ev, cv, array, key) == Some(f.last()));
                    assert forall|r: (Seq<char>, Seq<char>)| f.contains(r) <==> exists|k: int|
                        0 <= k < i + 1 && #[trigger] cycle_report(ev, cycle_views(found@)[k], array, key) == Some(r) by {
                        if f.contains(r) && !before.contains(r) {
                            let j = choose|j: int| 0 <= j < f.len() && f[j] == r;
                            if j < before.len() {
                                assert(before[j] == r);
                            }
                        }
                        if before.contains(r) {
                            let j = choose|j: int| 0 <= j < before.len() && before[j] == r;
                            assert(f[j] == r);
                        }
                        if exists|k: int| 0 <= k < i + 1 && #[trigger] cycle_report(ev, cycle_views(found@)[k], array, key) == Some(r) {
                            let k = choose|k: int| 0 <= k < i + 1 && #[trigger] cycle_report(ev, cycle_views(found@)[k], array, key) == Some(r);
                            if k == i {
                                assert(f[f.len() - 1] == r);
                            }
                        }
                    }
                }
            },
            None => {
                proof {
                    assert(cycle_report(ev, cv, array, key) is None);
                    assert forall|r: (Seq<char>, Seq<char>)| pair_views(reports@).contains(r) <==> exists|k: int|
                        0 <= k < i + 1 && #[trigger] cycle_report(ev, cycle_views(found@)[k], array, key) == Some(r) by {
                        if exists|k: int| 0 <= k < i + 1 && #[trigger] cycle_report(ev, cycle_views(found@)[k], array, key) == Some(r) {
                            let k = choose|k: int| 0 <= k < i + 1 && #[trigger] cycle_report(ev, cycle_views(found@)[k], array, key) == Some(r);
                            assert(k != i);
                        }
                    }
                }
            },
        }
        i = i + 1;
    }
    proof {
        assert forall|r: (Seq<char>, Seq<char>)| pair_views(reports@).contains(r) <==> reports_cycle(m, ev, array, key, r) by {
            if pair_views(reports@).contains(r) {
                let k = choose|k: int| 0 <= k < found@.len() && #[trigger] cycle_report(ev, cycle_views(found@)[k], array, key) == Some(r);
                assert(cycle_views(found@).contains(cycle_views(found@)[k]));
            }
            if reports_cycle(m, ev, array, key, r) {
                let c = choose|c: Seq<Seq<char>>| canonical_cycle(m, c) && #[trigger] cycle_report(ev, c, array, key) == Some(r);
                let k = choose|k: int| 0 <= k < cycle_views(found@).len() && cycle_views(found@)[k] == c;
            }
        }
    }
    reports
}

/// `x` is an `AKB004` finding of the descriptor: it reports a cycle of the
/// parent map.
pub open spec fn parent_cycle_finding(d: Json, x: FindingView) -> bool {
    x.code == Code::Akb004 && reports_cycle(
        parent_map(d),
        entries_of(EntityKind::Section, sections_of(d)),
        "sections",
        "parent_id",
        (x.path, x.message),
    )
}

/// `AKB004` findings for the cycles of the parent map.
fn parent_cycle_findings(
    entries: &Vec<(EntityKind, usize, &str)>,
    parents: &Vec<(Vec<char>, Vec<char>)>,
    Ghost(d): Ghost<Json>,
) -> (findings: Vec<Finding>)
    requires
        entry_views(entries@) == entries_of(EntityKind::Section, sections_of(d)),
        map_of(parents@) == parent_map(d),
    ensures
        forall|x: FindingView|
            crate::result::finding_views(findings@).contains(x) <==> parent_cycle_finding(d, x),
{
    let reports = cycle_reports(entries, parents, "sections", "parent_id");
    let mut findings: Vec<Finding> = Vec::new();
    let mut i: usize = 0;
    while i < reports.len()
        invariant
            0 <= i <= reports@.len(),
            findings@.len() == i,
            forall|k: int| 0 <= k < i ==> (#[trigger] findings@[k])@ == (FindingView {
                code: Code::Akb004,
                path: reports@[k].0@,
                message: reports@[k].1@,
            }),
        decreases reports@.len() - i,
    {
        findings.push(make_finding(Code::Akb004, &reports[i].0, &reports[i].1));
        i = i + 1;
    }
    proof {
        let f = crate::result::finding_views(findings@);
        let rv = pair_views(reports@);
        assert forall|x: FindingView| f.contains(x) <==> parent_cycle_finding(d, x) by {
            if f.contains(x) {
                let k = choose|k: int| 0 <= k < f.len() && f[k] == x;
                assert(findings@[k]@ == x);
                assert(rv[k] == (x.path, x.message));
                assert(rv.contains((x.path, x.message)));
            }
            if parent_cycle_finding(d, x) {
                assert(rv.contains((x.path, x.message)));
                let k = choose|k: int| 0 <= k < rv.len() && rv[k] == (x.path, x.message);
                assert(reports@[k].0@ == x.path && reports@[k].1@ == x.message);
                assert(findings@[k]@ == x);
                assert(f[k] == x);
            }
        }
    }
    findings
}

// ---------------------------------------------------------------------------
// AKB005: parent chains stay within the depth limit

/// The walk up a parent chain stops once it has counted this many sections.
pub const DEPTH_LIMIT: usize = PARENT_DEPTH_MAX + 1;

/// The depth that a walk up the parent map `m` reports, having counted
/// `depth` sections and seen the ids `seen` when it stands at `current`: the
/// number of sections on the chain; `1` where the chain runs into an id it has
/// already seen; the count so far once it passes `DEPTH_LIMIT`.
pub open spec fn depth_walk(m: Map<Seq<char>, Seq<char>>, seen: Seq<Seq<char>>, current: Seq<char>, depth: nat) -> nat
    decreases DEPTH_LIMIT + 1 - depth,
{
    if depth > DEPTH_LIMIT || !m.contains_key(current) {
        depth
    } else if seen.contains(m[current]) {
        1
    } else {
        depth_walk(m, seen.push(m[current]), m[current], depth + 1)
    }
}

/// The depth of the section with normalized id `key` in the parent map.
pub open spec fn section_depth_of(m: Map<Seq<char>, Seq<char>>, key: Seq<char>) -> nat {
    depth_walk(m, seq![key], key, 1)
}

/// Walks up the parent chain of `id` and reports its depth.
fn section_depth(id: &Vec<char>, parents: &Vec<(Vec<char>, Vec<char>)>) -> (depth: usize)
    ensures
        depth == section_depth_of(map_of(parents@), id@),
{
    let ghost m = map_of(parents@);
    let mut depth: usize = 1;
    let mut seen: Vec<Vec<char>> = Vec::new();
    seen.push(copy_chars(id));
    let mut current: Vec<char> = copy_chars(id);
    assert(nodes(seen@) =~= seq![id@]);
    loop
        invariant
            1 <= depth <= DEPTH_LIMIT,
            m == map_of(parents@),
            depth_walk(m, nodes(seen@), current@, depth as nat) == section_depth_of(m, id@),
        decreases DEPTH_LIMIT - depth,
    {
        match successor(parents, &current) {
            None => {
                return depth;
            },
            Some(parent) => {
                if holds(&seen, parent) {
                    return 1;
                }
                let ghost before = nodes(seen@);
                let ghost walked = depth_walk(m, before, current@, depth as nat);
                seen.push(copy_chars(parent));
                assert(nodes(seen@) =~= before.push(parent@));
                depth = depth + 1;
                current = copy_chars(parent);
                assert(walked == depth_walk(m, nodes(seen@), current@, depth as nat));
                if depth > DEPTH_LIMIT {
                    assert(depth_walk(m, nodes(seen@), current@, depth as nat) == depth);
                    return depth;
                }
            },
        }
    }
}

/// `c` is a parent chain of `m` that ends at a root: distinct ids, each the
/// parent of the one before, the last with no parent.
pub open spec fn root_chain(m: Map<Seq<char>, Seq<char>>, c: Seq<Seq<char>>) -> bool {
    &&& c.len() >= 1
    &&& forall|i: int, j: int| 0 <= i < j < c.len() ==> c[i] != c[j]
    &&& forall|i: int| 0 <= i < c.len() - 1 ==> #[trigger] m.contains_key(c[i]) && m[c[i]] == c[i + 1]
    &&& !m.contains_key(c.last())
}

proof fn lemma_walk_chain(m: Map<Seq<char>, Seq<char>>, c: Seq<Seq<char>>, k: int)
    requires
        root_chain(m, c),
        1 <= k <= c.len(),
        k <= DEPTH_LIMIT + 1,
    ensures
        depth_walk(m, c.take(k), c[k - 1], k as nat) == if c.len() <= DEPTH_LIMIT {
            c.len() as int
        } else {
            DEPTH_LIMIT + 1
        },
    decreases c.len() - k,
{
    if k > DEPTH_LIMIT {
    } else if k == c.len() {
        assert(c[k - 1] == c.last());
    } else {
        assert(m.contains_key(c[k - 1]));
        assert(m[c[k - 1]] == c[k]);
        assert(!c.take(k).contains(c[k])) by {
            if c.take(k).contains(c[k]) {
                let j = choose|j: int| 0 <= j < k && c.take(k)[j] == c[k];
                assert(c[j] == c[k]);
            }
        }
        assert(c.take(k).push(c[k]) =~= c.take(k + 1));
        lemma_walk_chain(m, c, k + 1);
    }
}

/// The depth of a section is the number of sections on its parent chain,
/// itself included, up to the walk's limit: a section that heads a chain of
/// `n` sections ending at a root has depth `n` when `n <= DEPTH_LIMIT`, and
/// `DEPTH_LIMIT + 1` otherwise. A root has depth 1.
pub proof fn lemma_depth_counts_chain(m: Map<Seq<char>, Seq<char>>, c: Seq<Seq<char>>)
    requires
        root_chain(m, c),
    ensures
        section_depth_of(m, c[0]) == if c.len() <= DEPTH_LIMIT {
            c.len() as int
        } else {
            DEPTH_LIMIT + 1
        },
{
    assert(c.take(1) =~= seq![c[0]]);
    lemma_walk_chain(m, c, 1);
}

proof fn lemma_walk_cycle(m: Map<Seq<char>, Seq<char>>, c: Seq<Seq<char>>, k: int)
    requires
        crate::graph::is_cycle(m, c),
        c.len() <= DEPTH_LIMIT,
        1 <= k <= c.len(),
    ensures
        depth_walk(m, c.take(k), c[k - 1], k as nat) == 1,
    decreases c.len() - k,
{
    reveal(crate::graph::is_cycle);
    assert(m.contains_key(c[k - 1]));
    if k == c.len() {
        assert((k - 1 + 1) % (c.len() as int) == 0) by (nonlinear_arith)
            requires
                k == c.len(),
                k >= 1,
        ;
        assert(m[c[k - 1]] == c[0]);
        assert(c.take(k)[0] == c[0]);
    } else {
        assert((k - 1 + 1) % (c.len() as int) == k) by (nonlinear_arith)
            requires
                1 <= k < c.len(),
        ;
        assert(m[c[k - 1]] == c[k]);
        assert(!c.take(k).contains(c[k])) by {
            if c.take(k).contains(c[k]) {
                let j = choose|j: int| 0 <= j < k && c.take(k)[j] == c[k];
                assert(c[j] == c[k]);
            }
        }
        assert(c.take(k).push(c[k]) =~= c.take(k + 1));
        lemma_walk_cycle(m, c, k + 1);
    }
}

/// A section on a cycle of the parent map has depth 1 when the cycle is no
/// longer than the walk's limit, so such a cycle is reported as a cycle
/// (`AKB004`) and never as too deep.
pub proof fn lemma_cycle_depth_one(m: Map<Seq<char>, Seq<char>>, c: Seq<Seq<char>>)
    requires
        crate::graph::is_cycle(m, c),
        c.len() <= DEPTH_LIMIT,
    ensures
        section_depth_of(m, c[0]) == 1,
{
    crate::graph::lemma_cycle_nonempty(m, c);
    assert(c.take(1) =~= seq![c[0]]);
    lemma_walk_cycle(m, c, 1);
}

/// The `AKB005` message for a chain of depth `depth`.
pub open spec fn depth_message(depth: nat) -> Seq<char> {
    "parent_id chain depth "@ + crate::text::decimal(depth) + " exceeds the maximum of "@ + crate::text::decimal(
        PARENT_DEPTH_MAX as nat,
    )
}

/// The `AKB005` findings of the first `n` section entries: one for each id
/// whose chain is deeper than `PARENT_DEPTH_MAX`, at the `parent_id` of the
/// last section declaring it.
pub open spec fn depth_findings_upto(
    entries: Seq<(EntityKind, int, Seq<char>)>,
    m: Map<Seq<char>, Seq<char>>,
    n: int,
) -> Seq<FindingView>
    decreases n,
{
    if n <= 0 {
        seq![]
    } else {
        let rest = depth_findings_upto(entries, m, n - 1);
        let key = normalize(entries[n - 1].2);
        let depth = section_depth_of(m, key);
        if last_entry(entries, key) == Some(n - 1) && depth > PARENT_DEPTH_MAX {
            rest.push(
                FindingView {
                    code: Code::Akb005,
                    path: member_path("sections", entries[n - 1].1, "parent_id"),
                    message: depth_message(depth),
                },
            )
        } else {
            rest
        }
    }
}

/// The `AKB005` findings of a descriptor.
pub open spec fn depth_findings_of(d: Json) -> Seq<FindingView> {
    let entries = entries_of(EntityKind::Section, sections_of(d));
    depth_findings_upto(entries, parent_map(d), entries.len() as int)
}

/// `AKB005` findings for the sections whose parent chain is too deep.
fn depth_findings(
    entries: &Vec<(EntityKind, usize, &str)>,
    parents: &Vec<(Vec<char>, Vec<char>)>,
    Ghost(d): Ghost<Json>,
) -> (findings: Vec<Finding>)
    requires
        entry_views(entries@) == entries_of(EntityKind::Section, sections_of(d)),
        map_of(parents@) == parent_map(d),
    ensures
        crate::result::finding_views(findings@) == depth_findings_of(d),
{
    let ghost ev = entry_views(entries@);
    let ghost m = map_of(parents@);
    let keys = keyed_entries(entries);
    let mut findings: Vec<Finding> = Vec::new();
    let mut j: usize = 0;
    while j < entries.len()
        invariant
            0 <= j <= entries@.len(),
            ev == entry_views(entries@),
            m == map_of(parents@),
            keyed(ev, keys@),
            crate::result::finding_views(findings@) == depth_findings_upto(ev, m, j as int),
        decreases entries@.len() - j,
    {
        let key = &keys[j].0;
        proof {
            lemma_keyed(ev, keys@, key@);
        }
        let last = crate::assoc::find_last(&keys, key);
        if last == Some(j) {
            let depth = section_depth(key, parents);
            if depth > PARENT_DEPTH_MAX {
                let path = member_pointer("sections", entries[j].1, "parent_id");
                let mut message: Vec<char> = Vec::new();
                push_str(&mut message, "parent_id chain depth ");
                crate::text::push_decimal(&mut message, depth);
                push_str(&mut message, " exceeds the maximum of ");
                crate::text::push_decimal(&mut message, PARENT_DEPTH_MAX);
                let ghost before = crate::result::finding_views(findings@);
                findings.push(make_finding(Code::Akb005, &path, &message));
                assert(crate::result::finding_views(findings@) =~= before.push(
                    crate::result::finding_views(findings@).last(),
                ));
            }
        }
        j = j + 1;
    }
    findings
}

// ---------------------------------------------------------------------------
// Discovery cycles among sources (advisory)

/// The `(id, discovered_via_id)` pairs of the sources of `list` where both
/// are well-formed ids, normalized, in order.
pub open spec fn discovery_pairs(list: Seq<(int, Seq<(String, Json)>)>) -> Seq<(Seq<char>, Seq<char>)>
    decreases list.len(),
{
    if list.len() == 0 {
        seq![]
    } else {
        let rest = discovery_pairs(list.drop_last());
        let m = list.last().1;
        match (id_of(m), id_str(member(m, "discovered_via_id"@))) {
            (Some(t), Some(q)) => rest.push((normalize(t), normalize(q))),
            _ => rest,
        }
    }
}

/// Each source's discovery predecessor: the map from normalized source ids to
/// the normalized `discovered_via_id` (the last source with an id wins).
pub open spec fn discovery_map(d: Json) -> Map<Seq<char>, Seq<char>> {
    pairs_map(discovery_pairs(sources_of(d)))
}

/// The discovery pairs of the graph's sources.
fn discovery_by_id(graph: &Graph, Ghost(d): Ghost<Json>) -> (pairs: Vec<(Vec<char>, Vec<char>)>)
    requires
        graph_of(*graph, d),
    ensures
        map_of(pairs@) == discovery_map(d),
{
    let ghost l = sources_of(d);
    let mut pairs: Vec<(Vec<char>, Vec<char>)> = Vec::new();
    let mut i: usize = 0;
    while i < graph.sources.len()
        invariant
            0 <= i <= graph.sources@.len(),
            graph_of(*graph, d),
            l == listing(graph.sources@),
            pair_views(pairs@) == discovery_pairs(l.subrange(0, i as int)),
        decreases graph.sources@.len() - i,
    {
        let ghost next = l.subrange(0, i + 1);
        assert(next.drop_last() =~= l.subrange(0, i as int));
        assert(next.last() == l[i as int]);
        let ghost before = pairs@;
        let source = graph.sources[i].1;
        let id = id_value(crate::json::member_of(source, "id"));
        let via = id_value(crate::json::member_of(source, "discovered_via_id"));
        match (id, via) {
            (Some(id), Some(via)) => {
                pairs.push((normalize_id(id), normalize_id(via)));
                assert(pair_views(pairs@) =~= pair_views(before).push((normalize(id@), normalize(via@))));
            },
            _ => {},
        }
        i = i + 1;
    }
    assert(l.subrange(0, graph.sources@.len() as int) =~= l);
    proof {
        lemma_map_of_pairs(pairs@);
    }
    pairs
}

/// `x` is a discovery-cycle advisory of the descriptor: it reports a cycle of
/// the discovery map.
pub open spec fn source_cycle_warning(d: Json, x: AdvisoryView) -> bool {
    reports_cycle(
        discovery_map(d),
        entries_of(EntityKind::Source, sources_of(d)),
        "sources",
        "discovered_via_id",
        (x.path, x.message),
    )
}

/// Advisories for the cycles of the discovery map.
fn source_cycle_warnings(graph: &Graph, Ghost(d): Ghost<Json>) -> (warnings: Vec<Advisory>)
    requires
        graph_of(*graph, d),
    ensures
        forall|x: AdvisoryView|
            crate::result::advisory_views(warnings@).contains(x) <==> source_cycle_warning(d, x),
{
    let mut entries: Vec<(EntityKind, usize, &str)> = Vec::new();
    assert(entry_views(entries@) =~= seq![]);
    push_entries(&mut entries, EntityKind::Source, &graph.sources);
    assert(entry_views(entries@) =~= entries_of(EntityKind::Source, sources_of(d)));
    let next = discovery_by_id(graph, Ghost(d));
    let reports = cycle_reports(&entries, &next, "sources", "discovered_via_id");
    let mut warnings: Vec<Advisory> = Vec::new();
    let mut i: usize = 0;
    while i < reports.len()
        invariant
            0 <= i <= reports@.len(),
            warnings@.len() == i,
            forall|k: int| 0 <= k < i ==> (#[trigger] warnings@[k])@ == (AdvisoryView {
                path: reports@[k].0@,
                message: reports@[k].1@,
            }),
        decreases reports@.len() - i,
    {
        warnings.push(Advisory { path: string_of(&reports[i].0), message: string_of(&reports[i].1) });
        i = i + 1;
    }
    proof {
        let f = crate::result::advisory_views(warnings@);
        let rv = pair_views(reports@);
        assert forall|x: AdvisoryView| f.contains(x) <==> source_cycle_warning(d, x) by {
            if f.contains(x) {
                let k = choose|k: int| 0 <= k < f.len() && f[k] == x;
                assert(warnings@[k]@ == x);
                assert(rv[k] == (x.path, x.message));
                assert(rv.contains((x.path, x.message)));
            }
            if source_cycle_warning(d, x) {
                assert(rv.contains((x.path, x.message)));
                let k = choose|k: int| 0 <= k < rv.len() && rv[k] == (x.path, x.message);
                assert(reports@[k].0@ == x.path && reports@[k].1@ == x.message);
                assert(warnings@[k]@ == x);
                assert(f[k] == x);
            }
        }
    }
    warnings
}

// ---------------------------------------------------------------------------
// The semantic layer

/// `x` is a semantic finding of descriptor `d`: a repeated id (`AKB001`), a
/// section with neither content nor child (`AKB002`), a bad reference
/// (`AKB007`, `AKB010`, `AKB011`), a parent cycle (`AKB004`) or a parent chain
/// that is too deep (`AKB005`).
pub open spec fn semantic_finding(d: Json, x: FindingView) -> bool {
    ||| duplicate_findings(id_entries(d)).contains(x)
    ||| empty_findings(sections_of(d), sections_of(d)).contains(x)
    ||| reference_findings_of(d).contains(x)
    ||| parent_cycle_finding(d, x)
    ||| depth_findings_of(d).contains(x)
}

/// Appends `more` to `out`.
fn extend_findings(out: &mut Vec<Finding>, more: Vec<Finding>)
    ensures
        crate::result::finding_views(final(out)@) == crate::result::finding_views(old(out)@)
            + crate::result::finding_views(more@),
{
    let mut more = more;
    let ghost before = out@;
    let ghost added = more@;
    out.append(&mut more);
    assert(crate::result::finding_views(out@) =~= crate::result::finding_views(before)
        + crate::result::finding_views(added));
}

/// The semantic findings of a descriptor, sorted, each once.
pub fn semantic_findings(descriptor: &Json) -> (findings: Vec<Finding>)
    ensures
        crate::result::findings_strictly_sorted(crate::result::finding_views(findings@)),
        forall|x: FindingView|
            crate::result::finding_views(findings@).contains(x) <==> semantic_finding(*descriptor, x),
{
    let ghost d = *descriptor;
    let graph = Graph::from_descriptor(descriptor);
    let entries = id_entries_of(&graph);
    let mut all: Vec<Finding> = duplicate_ids(&entries);
    extend_findings(&mut all, empty_sections(&graph));
    extend_findings(&mut all, reference_findings(&graph, Ghost(d)));
    let mut sections: Vec<(EntityKind, usize, &str)> = Vec::new();
    assert(entry_views(sections@) =~= seq![]);
    push_entries(&mut sections, EntityKind::Section, &graph.sections);
    assert(entry_views(sections@) =~= entries_of(EntityKind::Section, sections_of(d)));
    let parents = parent_by_id(&graph, Ghost(d));
    let ghost before_cycles = crate::result::finding_views(all@);
    let cycle_findings = parent_cycle_findings(&sections, &parents, Ghost(d));
    let ghost cycle_views_ = crate::result::finding_views(cycle_findings@);
    extend_findings(&mut all, cycle_findings);
    extend_findings(&mut all, depth_findings(&sections, &parents, Ghost(d)));
    let sorted = crate::result::sort_dedup_findings(all);
    proof {
        let a = crate::result::finding_views(all@);
        let p1 = duplicate_findings(id_entries(d));
        let p2 = empty_findings(sections_of(d), sections_of(d));
        let p3 = reference_findings_of(d);
        let p5 = depth_findings_of(d);
        assert(a =~= p1 + p2 + p3 + cycle_views_ + p5);
        assert forall|x: FindingView| a.contains(x) <==> semantic_finding(d, x) by {
            if a.contains(x) {
                let k = choose|k: int| 0 <= k < a.len() && a[k] == x;
                let n1 = p1.len() as int;
                let n2 = n1 + p2.len();
                let n3 = n2 + p3.len();
                let n4 = n3 + cycle_views_.len();
                if k < n1 {
                    assert(p1[k] == x);
                } else if k < n2 {
                    assert(p2[k - n1] == x);
                } else if k < n3 {
                    assert(p3[k - n2] == x);
                } else if k < n4 {
                    assert(cycle_views_[k - n3] == x);
                    assert(cycle_views_.contains(x));
                } else {
                    assert(p5[k - n4] == x);
                }
            }
            if semantic_finding(d, x) {
                let n1 = p1.len() as int;
                let n2 = n1 + p2.len();
                let n3 = n2 + p3.len();
                let n4 = n3 + cycle_views_.len();
                if p1.contains(x) {
                    let k = choose|k: int| 0 <= k < p1.len() && p1[k] == x;
                    assert(a[k] == x);
                } else if p2.contains(x) {
                    let k = choose|k: int| 0 <= k < p2.len() && p2[k] == x;
                    assert(a[n1 + k] == x);
                } else if p3.contains(x) {
                    let k = choose|k: int| 0 <= k < p3.len() && p3[k] == x;
                    assert(a[n2 + k] == x);
                } else if parent_cycle_finding(d, x) {
                    assert(cycle_views_.contains(x));
                    let k = choose|k: int| 0 <= k < cycle_views_.len() && cycle_views_[k] == x;
                    assert(a[n3 + k] == x);
                } else {
                    let k = choose|k: int| 0 <= k < p5.len() && p5[k] == x;
                    assert(a[n4 + k] == x);
                }
            }
        }
    }
    sorted
}

/// The semantic advisories of a descriptor (discovery cycles among its
/// sources), sorted, each once.
pub fn semantic_warnings(descriptor: &Json) -> (warnings: Vec<Advisory>)
    ensures
        crate::result::advisories_strictly_sorted(crate::result::advisory_views(warnings@)),
        forall|x: AdvisoryView|
            crate::result::advisory_views(warnings@).contains(x) <==> source_cycle_warning(*descriptor, x),
{
    let graph = Graph::from_descriptor(descriptor);
    let warnings = source_cycle_warnings(&graph, Ghost(*descriptor));
    crate::result::sort_dedup_advisories(warnings)
}

// ---------------------------------------------------------------------------
// The codes the semantic layer reports

/// The codes of the semantic rules.
pub open spec fn semantic_code(c: Code) -> bool {
    ||| c == Code::Akb001
    ||| c == Code::Akb002
    ||| c == Code::Akb004
    ||| c == Code::Akb005
    ||| c == Code::Akb007
    ||| c == Code::Akb010
    ||| c == Code::Akb011
}

/// Every finding of `s` carries a semantic code.
pub open spec fn semantic_codes(s: Seq<FindingView>) -> bool {
    forall|i: int| 0 <= i < s.len() ==> semantic_code((#[trigger] s[i]).code)
}

proof fn lemma_duplicate_codes(entries: Seq<(EntityKind, int, Seq<char>)>)
    ensures
        semantic_codes(duplicate_findings(entries)),
    decreases entries.len(),
{
    if entries.len() > 0 {
        lemma_duplicate_codes(entries.drop_last());
    }
}

proof fn lemma_empty_codes(sections: Seq<(int, Seq<(String, Json)>)>, all: Seq<(int, Seq<(String, Json)>)>)
    ensures
        semantic_codes(empty_findings(sections, all)),
    decreases sections.len(),
{
    if sections.len() > 0 {
        lemma_empty_codes(sections.drop_last(), all);
    }
}

proof fn lemma_item_ref_codes(d: Json, items: Seq<Json>, prefix: Seq<char>)
    ensures
        semantic_codes(item_ref_findings(d, items, prefix)),
    decreases items.len(),
{
    if items.len() > 0 {
        lemma_item_ref_codes(d, items.drop_last(), prefix);
    }
}

proof fn lemma_repeated_codes(items: Seq<Json>, positions: Seq<int>, prefix: Seq<char>)
    ensures
        semantic_codes(repeated_findings(items, positions, prefix)),
    decreases positions.len(),
{
    if positions.len() > 0 {
        lemma_repeated_codes(items, positions.drop_last(), prefix);
    }
}

proof fn lemma_source_ids_codes(d: Json, value: Option<Json>, prefix: Seq<char>)
    ensures
        semantic_codes(source_ids_findings(d, value, prefix)),
{
    match crate::json::items_of(value) {
        Some(items) => {
            lemma_item_ref_codes(d, items, prefix);
            lemma_repeated_codes(items, crate::shape::casefolded_duplicates(items), prefix);
        },
        None => {},
    }
}

proof fn lemma_link_codes(d: Json, section: int, links: Seq<(int, Seq<(String, Json)>)>)
    ensures
        semantic_codes(link_findings(d, section, links)),
    decreases links.len(),
{
    if links.len() > 0 {
        lemma_link_codes(d, section, links.drop_last());
    }
}

proof fn lemma_claim_codes(d: Json, section: int, claims: Seq<(int, Seq<(String, Json)>)>)
    ensures
        semantic_codes(claim_findings(d, section, claims)),
    decreases claims.len(),
{
    if claims.len() > 0 {
        let (c, m) = claims.last();
        lemma_claim_codes(d, section, claims.drop_last());
        lemma_source_ids_codes(d, member(m, "source_ids"@), claim_path(section, c));
    }
}

proof fn lemma_sources_ref_codes(d: Json, list: Seq<(int, Seq<(String, Json)>)>)
    ensures
        semantic_codes(sources_ref_findings(d, list)),
    decreases list.len(),
{
    if list.len() > 0 {
        lemma_sources_ref_codes(d, list.drop_last());
    }
}

proof fn lemma_sections_ref_codes(d: Json, list: Seq<(int, Seq<(String, Json)>)>)
    ensures
        semantic_codes(sections_ref_findings(d, list)),
    decreases list.len(),
{
    if list.len() > 0 {
        let (p, m) = list.last();
        lemma_sections_ref_codes(d, list.drop_last());
        lemma_source_ids_codes(d, member(m, "source_ids"@), member_path("sections", p, "source_ids"));
        lemma_link_codes(d, p, listed(member(m, "links"@)));
        lemma_claim_codes(d, p, listed(member(m, "provenance"@)));
    }
}

proof fn lemma_depth_codes(entries: Seq<(EntityKind, int, Seq<char>)>, m: Map<Seq<char>, Seq<char>>, n: int)
    ensures
        semantic_codes(depth_findings_upto(entries, m, n)),
    decreases n,
{
    if n > 0 {
        lemma_depth_codes(entries, m, n - 1);
    }
}

/// The semantic layer reports only the codes of its rules (`AKB001`,
/// `AKB002`, `AKB004`, `AKB005`, `AKB007`, `AKB010`, `AKB011`); in
/// particular never the strict-profile `AKB006`.
pub proof fn lemma_semantic_codes(d: Json, x: FindingView)
    requires
        semantic_finding(d, x),
    ensures
        semantic_code(x.code),
{
    lemma_duplicate_codes(id_entries(d));
    lemma_empty_codes(sections_of(d), sections_of(d));
    lemma_sources_ref_codes(d, sources_of(d));
    lemma_sections_ref_codes(d, sections_of(d));
    let entries = entries_of(EntityKind::Section, sections_of(d));
    lemma_depth_codes(entries, parent_map(d), entries.len() as int);
    let parts = seq![
        duplicate_findings(id_entries(d)),
        empty_findings(sections_of(d), sections_of(d)),
        reference_findings_of(d),
        depth_findings_of(d),
    ];
    assert forall|k: int| 0 <= k < parts.len() && #[trigger] parts[k].contains(x) implies semantic_code(x.code) by {
        let i = choose|i: int| 0 <= i < parts[k].len() && parts[k][i] == x;
        assert(semantic_code(parts[k][i].code));
    }
    if duplicate_findings(id_entries(d)).contains(x) {
        assert(parts[0].contains(x));
    } else if empty_findings(sections_of(d), sections_of(d)).contains(x) {
        assert(parts[1].contains(x));
    } else if reference_findings_of(d).contains(x) {
        assert(parts[2].contains(x));
    } else if depth_findings_of(d).contains(x) {
        assert(parts[3].contains(x));
    }
}

} // verus!
