//! Defensive JSON shape helpers for semantic validation.

use vstd::prelude::*;

use crate::catalog::{Code, LOCAL_ID_MAX_LENGTH};
use crate::json::{str_of, Json};
use crate::text::{chars_eq, chars_of};

verus! {

/// Typed section id: `sec-` in any ASCII case, then six ASCII letters or digits.
pub const SECTION_ID_PATTERN: &'static str = "^[Ss][Ee][Cc]-[0-9A-Za-z]{6}$";

/// Typed source id: `src-` in any ASCII case, then six ASCII letters or digits.
pub const SOURCE_ID_PATTERN: &'static str = "^[Ss][Rr][Cc]-[0-9A-Za-z]{6}$";

/// Whether the `regex` crate's `Regex::new(pattern)` compiles and its
/// `is_match` accepts `haystack`.
pub uninterp spec fn regex_matches(pattern: Seq<char>, haystack: Seq<char>) -> bool;

/// An ASCII letter or digit.
pub open spec fn ascii_alnum(c: char) -> bool {
    ('0' <= c <= '9') || ('a' <= c <= 'z') || ('A' <= c <= 'Z')
}

/// `id` is exactly a typed id with the prefix letters `a`, `b`, `c` (each in
/// either ASCII case), a `-`, then six ASCII letters or digits.
pub open spec fn typed_shape(id: Seq<char>, a: char, b: char, c: char) -> bool {
    &&& id.len() == 10
    &&& lower_char(id[0]) == a && lower_char(id[1]) == b && lower_char(id[2]) == c
    &&& ('A' <= id[0] <= 'Z' || 'a' <= id[0] <= 'z')
    &&& ('A' <= id[1] <= 'Z' || 'a' <= id[1] <= 'z')
    &&& ('A' <= id[2] <= 'Z' || 'a' <= id[2] <= 'z')
    &&& id[3] == '-'
    &&& forall|i: int| 4 <= i < 10 ==> ascii_alnum(#[trigger] id[i])
}

/// Trusted: `regex::Regex::new` then `Regex::is_match`; the result is named
/// `regex_matches` of the pattern and the haystack (a pattern that does not
/// compile matches nothing). For the two typed-id patterns, whose `^` and
/// `$` anchor the whole haystack and whose classes are plain ASCII, the
/// contract also states the language they accept, as the `regex` syntax
/// documentation defines it.
#[verifier::external_body]
fn regex_is_match(pattern: &str, haystack: &str) -> (r: bool)
    ensures
        r == regex_matches(pattern@, haystack@),
        pattern@ == SECTION_ID_PATTERN@ ==> (r <==> typed_shape(haystack@, 's', 'e', 'c')),
        pattern@ == SOURCE_ID_PATTERN@ ==> (r <==> typed_shape(haystack@, 's', 'r', 'c')),
{
    match regex::Regex::new(pattern) {
        Ok(re) => re.is_match(haystack),
        Err(_) => false,
    }
}

/// The two kinds of entity an id can name.
#[derive(Debug, Clone, Copy, PartialEq, Eq, Structural)]
pub enum EntityKind {
    Source,
    Section,
}

/// The noun for a kind of entity.
pub open spec fn noun_of(kind: EntityKind) -> Seq<char> {
    match kind {
        EntityKind::Source => "source"@,
        EntityKind::Section => "section"@,
    }
}

/// The kind that is not `kind`.
pub open spec fn other_kind(kind: EntityKind) -> EntityKind {
    match kind {
        EntityKind::Source => EntityKind::Section,
        EntityKind::Section => EntityKind::Source,
    }
}

impl EntityKind {
    /// The kind that is not this one.
    pub fn other(self) -> (kind: EntityKind)
        ensures
            kind == other_kind(self),
    {
        match self {
            EntityKind::Source => EntityKind::Section,
            EntityKind::Section => EntityKind::Source,
        }
    }

    /// The noun for this kind of entity.
    pub fn noun(self) -> (noun: &'static str)
        ensures
            noun@ == noun_of(self),
    {
        match self {
            EntityKind::Source => "source",
            EntityKind::Section => "section",
        }
    }
}

/// The kind a typed id names, decided by its prefix alone: `sec-` for a
/// section, `src-` for a source (in any ASCII case), each followed by six
/// ASCII letters or digits; none for any other token.
pub open spec fn kind_of_id(id: Seq<char>) -> Option<EntityKind> {
    if typed_shape(id, 's', 'e', 'c') {
        Some(EntityKind::Section)
    } else if typed_shape(id, 's', 'r', 'c') {
        Some(EntityKind::Source)
    } else {
        None
    }
}

/// A character of the local id grammar: an ASCII lowercase letter, a digit,
/// `_` or `-`.
pub open spec fn local_id_char(c: char) -> bool {
    ('a' <= c <= 'z') || ('0' <= c <= '9') || c == '_' || c == '-'
}

/// `id` follows the local id grammar: 1 to `LOCAL_ID_MAX_LENGTH` local id
/// characters. Such an id names whatever entity declares it.
pub open spec fn plain_id(id: Seq<char>) -> bool {
    &&& 1 <= id.len() <= LOCAL_ID_MAX_LENGTH
    &&& forall|i: int| 0 <= i < id.len() ==> local_id_char(#[trigger] id[i])
}

/// `id` is a well-formed id: a typed source or section id, or a plain local
/// id.
pub open spec fn well_formed_id(id: Seq<char>) -> bool {
    kind_of_id(id) is Some || plain_id(id)
}

/// Returns the kind a typed id names, or `None` for a token that is not a
/// typed id.
pub fn id_kind(candidate: &str) -> (kind: Option<EntityKind>)
    ensures
        kind == kind_of_id(candidate@),
{
    if regex_is_match(SECTION_ID_PATTERN, candidate) {
        Some(EntityKind::Section)
    } else if regex_is_match(SOURCE_ID_PATTERN, candidate) {
        Some(EntityKind::Source)
    } else {
        None
    }
}

/// Whether `candidate` follows the local id grammar.
pub fn is_plain_id(candidate: &str) -> (r: bool)
    ensures
        r == plain_id(candidate@),
{
    let chars = chars_of(candidate);
    if chars.len() < 1 || chars.len() > LOCAL_ID_MAX_LENGTH {
        return false;
    }
    let mut i: usize = 0;
    while i < chars.len()
        invariant
            chars@ == candidate@,
            0 <= i <= chars@.len(),
            forall|j: int| 0 <= j < i ==> local_id_char(#[trigger] chars@[j]),
        decreases chars@.len() - i,
    {
        let c = chars[i];
        if !(('a' <= c && c <= 'z') || ('0' <= c && c <= '9') || c == '_' || c == '-') {
            return false;
        }
        i = i + 1;
    }
    true
}

/// Whether `candidate` is a typed source or section id or a plain local id.
pub fn is_well_formed_id(candidate: &str) -> (r: bool)
    ensures
        r == well_formed_id(candidate@),
{
    id_kind(candidate).is_some() || is_plain_id(candidate)
}

/// ASCII lowercase of one character.
pub open spec fn lower_char(c: char) -> char {
    if 'A' <= c <= 'Z' {
        ((c as int) + 32) as char
    } else {
        c
    }
}

/// ASCII lowercase of an id: the casefolded comparison key for ids.
pub open spec fn normalize(id: Seq<char>) -> Seq<char> {
    id.map_values(|c: char| lower_char(c))
}

/// The id key is a fixed point: normalizing a normalized id changes
/// nothing, so keys compare as ids compare, ASCII case aside.
pub proof fn lemma_normalize_idempotent(id: Seq<char>)
    ensures
        normalize(normalize(id)) == normalize(id),
{
    assert forall|i: int| 0 <= i < id.len() implies lower_char(lower_char(id[i])) == lower_char(id[i]) by {
        let c = id[i];
        if 'A' <= c <= 'Z' {
            assert(97 <= (c as int) + 32 <= 122);
        }
    }
    assert(normalize(normalize(id)) =~= normalize(id));
}

/// ASCII lowercase of one character.
fn ascii_lower(c: char) -> (l: char)
    ensures
        l == lower_char(c),
{
    if c == 'A' {
        'a'
    } else if c == 'B' {
        'b'
    } else if c == 'C' {
        'c'
    } else if c == 'D' {
        'd'
    } else if c == 'E' {
        'e'
    } else if c == 'F' {
        'f'
    } else if c == 'G' {
        'g'
    } else if c == 'H' {
        'h'
    } else if c == 'I' {
        'i'
    } else if c == 'J' {
        'j'
    } else if c == 'K' {
        'k'
    } else if c == 'L' {
        'l'
    } else if c == 'M' {
        'm'
    } else if c == 'N' {
        'n'
    } else if c == 'O' {
        'o'
    } else if c == 'P' {
        'p'
    } else if c == 'Q' {
        'q'
    } else if c == 'R' {
        'r'
    } else if c == 'S' {
        's'
    } else if c == 'T' {
        't'
    } else if c == 'U' {
        'u'
    } else if c == 'V' {
        'v'
    } else if c == 'W' {
        'w'
    } else if c == 'X' {
        'x'
    } else if c == 'Y' {
        'y'
    } else if c == 'Z' {
        'z'
    } else {
        c
    }
}

/// Casefolded comparison key for ids (ASCII lowercase).
pub fn normalize_id(id: &str) -> (key: Vec<char>)
    ensures
        key@ == normalize(id@),
{
    let chars = chars_of(id);
    let mut key: Vec<char> = Vec::new();
    let mut i: usize = 0;
    while i < chars.len()
        invariant
            0 <= i <= chars@.len(),
            chars@ == id@,
            key@ == normalize(id@.subrange(0, i as int)),
        decreases chars@.len() - i,
    {
        let c = chars[i];
        let lower = ascii_lower(c);
        key.push(lower);
        i = i + 1;
    }
    assert(id@.subrange(0, id@.len() as int) =~= id@);
    key
}

/// A possibly absent borrowed value, as a value.
pub open spec fn opt(value: Option<&Json>) -> Option<Json> {
    match value {
        Some(v) => Some(*v),
        None => None,
    }
}

/// The normalized ids of one kind of entity, as sequences.
pub open spec fn keys_view(keys: Seq<Vec<char>>) -> Seq<Seq<char>> {
    keys.map_values(|k: Vec<char>| k@)
}

/// The declared ids of a descriptor, normalized and split by kind.
pub struct EntityIndex {
    /// Normalized ids of the sources.
    pub source_ids: Vec<Vec<char>>,
    /// Normalized ids of the sections.
    pub section_ids: Vec<Vec<char>>,
}

impl EntityIndex {
    /// `key` is a declared (normalized) id of kind `kind`.
    pub open spec fn knows(&self, kind: EntityKind, key: Seq<char>) -> bool {
        match kind {
            EntityKind::Source => keys_view(self.source_ids@).contains(key),
            EntityKind::Section => keys_view(self.section_ids@).contains(key),
        }
    }

    /// Whether an entity of kind `kind` has the id `id`, compared casefolded.
    pub fn contains_kind(&self, kind: EntityKind, id: &str) -> (r: bool)
        ensures
            r == self.knows(kind, normalize(id@)),
    {
        let key = normalize_id(id);
        match kind {
            EntityKind::Source => contains_key(&self.source_ids, &key),
            EntityKind::Section => contains_key(&self.section_ids, &key),
        }
    }
}

/// Whether `keys` holds `key`.
pub fn contains_key(keys: &Vec<Vec<char>>, key: &Vec<char>) -> (r: bool)
    ensures
        r == keys_view(keys@).contains(key@),
{
    let mut i: usize = 0;
    while i < keys.len()
        invariant
            0 <= i <= keys@.len(),
            forall|j: int| 0 <= j < i ==> keys@[j]@ != key@,
        decreases keys@.len() - i,
    {
        if chars_eq(&keys[i], key) {
            assert(keys_view(keys@)[i as int] == key@);
            return true;
        }
        i = i + 1;
    }
    proof {
        if keys_view(keys@).contains(key@) {
            let k = choose|k: int| 0 <= k < keys_view(keys@).len() && keys_view(keys@)[k] == key@;
            assert(keys@[k]@ == key@);
        }
    }
    false
}

/// The positions of the object items of an array, ascending.
pub open spec fn object_positions(items: Seq<Json>) -> Seq<int>
    decreases items.len(),
{
    if items.len() == 0 {
        seq![]
    } else if items.last() is Object {
        object_positions(items.drop_last()).push(items.len() - 1)
    } else {
        object_positions(items.drop_last())
    }
}

/// The object items of an optional array, each with its position.
pub open spec fn listed(value: Option<Json>) -> Seq<(int, Seq<(String, Json)>)> {
    match value {
        Some(Json::Array(items)) => object_positions(items@).map_values(
            |p: int|
                (
                    p,
                    match items@[p] {
                        Json::Object(m) => m@,
                        _ => seq![],
                    },
                ),
        ),
        _ => seq![],
    }
}

/// The listing of exec object items, as positions and members.
pub open spec fn listing(r: Seq<(usize, &Vec<(String, Json)>)>) -> Seq<(int, Seq<(String, Json)>)> {
    r.map_values(|x: (usize, &Vec<(String, Json)>)| (x.0 as int, x.1@))
}

pub proof fn lemma_object_positions_bounds(items: Seq<Json>)
    ensures
        forall|k: int|
            0 <= k < object_positions(items).len() ==> 0 <= #[trigger] object_positions(items)[k]
                < items.len() && items[object_positions(items)[k]] is Object,
    decreases items.len(),
{
    if items.len() > 0 {
        lemma_object_positions_bounds(items.drop_last());
    }
}

/// Every object item of an array has its position among the object positions.
pub proof fn lemma_object_position(items: Seq<Json>, i: int) -> (k: int)
    requires
        0 <= i < items.len(),
        items[i] is Object,
    ensures
        0 <= k < object_positions(items).len(),
        object_positions(items)[k] == i,
    decreases items.len(),
{
    if i == items.len() - 1 {
        object_positions(items.drop_last()).len() as int
    } else {
        lemma_object_position(items.drop_last(), i)
    }
}

/// Every object item of an array is listed, at its own position and with its
/// own members; and every listed entry is such an item.
pub proof fn lemma_listed_objects(items: Vec<Json>)
    ensures
        forall|i: int, m: Vec<(String, Json)>|
            0 <= i < items@.len() && items@[i] == Json::Object(m) ==> exists|k: int|
                0 <= k < listed(Some(Json::Array(items))).len() && #[trigger] listed(
                    Some(Json::Array(items)),
                )[k] == (i, m@),
        forall|k: int|
            0 <= k < listed(Some(Json::Array(items))).len() ==> {
                let (p, n) = #[trigger] listed(Some(Json::Array(items)))[k];
                &&& 0 <= p < items@.len()
                &&& items@[p] is Object
                &&& n == items@[p]->Object_0@
            },
{
    lemma_object_positions_bounds(items@);
    let l = listed(Some(Json::Array(items)));
    assert forall|i: int, m: Vec<(String, Json)>|
        0 <= i < items@.len() && items@[i] == Json::Object(m) implies exists|k: int|
            0 <= k < l.len() && #[trigger] l[k] == (i, m@) by {
        let k = lemma_object_position(items@, i);
        assert(l[k] == (i, m@));
    }
}

/// The object items of an array value, each with its position; nothing for a
/// value that is absent or not an array.
pub fn indexed_objects<'a>(value: Option<&'a Json>) -> (r: Vec<(usize, &'a Vec<(String, Json)>)>)
    ensures
        listing(r@) == listed(opt(value)),
{
    let mut r: Vec<(usize, &'a Vec<(String, Json)>)> = Vec::new();
    match value {
        Some(Json::Array(items)) => {
            let mut i: usize = 0;
            while i < items.len()
                invariant
                    0 <= i <= items@.len(),
                    r@.len() == object_positions(items@.subrange(0, i as int)).len(),
                    forall|k: int|
                        0 <= k < r@.len() ==> {
                            &&& r@[k].0 as int == object_positions(items@.subrange(0, i as int))[k]
                            &&& #[trigger] items@[r@[k].0 as int] == Json::Object(*r@[k].1)
                        },
                decreases items@.len() - i,
            {
                proof {
                    let next = items@.subrange(0, i + 1);
                    assert(next.drop_last() =~= items@.subrange(0, i as int));
                }
                match &items[i] {
                    Json::Object(members) => {
                        r.push((i, members));
                    },
                    _ => {},
                }
                i = i + 1;
            }
            assert(items@.subrange(0, items@.len() as int) =~= items@);
            proof {
                lemma_object_positions_bounds(items@);
                let l = listed(opt(value));
                assert forall|k: int| 0 <= k < r@.len() implies #[trigger] listing(r@)[k] == l[k] by {
                    let p = object_positions(items@)[k];
                    assert(items@.subrange(0, i as int) == items@);
                    assert(r@[k].0 as int == p);
                    assert(items@[r@[k].0 as int] == Json::Object(*r@[k].1));
                }
                assert(listing(r@) =~= l);
            }
        },
        _ => {
            assert(listing(r@) =~= listed(opt(value)));
        },
    }
    r
}

/// The string of a value when it is a well-formed id.
pub open spec fn id_str(value: Option<Json>) -> Option<Seq<char>> {
    match str_of(value) {
        Some(s) => if well_formed_id(s) {
            Some(s)
        } else {
            None
        },
        None => None,
    }
}

/// The string of a value when it is a well-formed id.
pub fn id_value<'a>(value: Option<&'a Json>) -> (r: Option<&'a str>)
    ensures
        match r {
            Some(s) => id_str(opt(value)) == Some(s@),
            None => id_str(opt(value)) is None,
        },
{
    match crate::json::str_in(value) {
        Some(s) => if is_well_formed_id(s) {
            Some(s)
        } else {
            None
        },
        None => None,
    }
}

/// The finding code for a reference `id` that must name an entity of kind
/// `expected`, found by lookup with ASCII case ignored: none when it
/// resolves or is not a well-formed id (the schema reports that). A typed id
/// of the other kind is `AKB010` by its prefix alone, one of the right kind
/// that no entity declares `AKB007`; a plain id that only an entity of the
/// other kind declares is `AKB010`, one that nothing declares `AKB007`.
pub open spec fn reference_code_of(id: Seq<char>, expected: EntityKind, index: EntityIndex) -> Option<Code> {
    match kind_of_id(id) {
        Some(kind) => if kind != expected {
            Some(Code::Akb010)
        } else if index.knows(expected, normalize(id)) {
            None
        } else {
            Some(Code::Akb007)
        },
        None => if !plain_id(id) || index.knows(expected, normalize(id)) {
            None
        } else if index.knows(other_kind(expected), normalize(id)) {
            Some(Code::Akb010)
        } else {
            Some(Code::Akb007)
        },
    }
}

/// The finding code for the reference `id`; see [`reference_code_of`].
pub fn reference_code_id(id: &str, expected: EntityKind, index: &EntityIndex) -> (r: Option<Code>)
    ensures
        r == reference_code_of(id@, expected, *index),
{
    match id_kind(id) {
        Some(kind) => {
            if kind != expected {
                Some(Code::Akb010)
            } else if index.contains_kind(expected, id) {
                None
            } else {
                Some(Code::Akb007)
            }
        },
        None => {
            if !is_plain_id(id) || index.contains_kind(expected, id) {
                None
            } else if index.contains_kind(expected.other(), id) {
                Some(Code::Akb010)
            } else {
                Some(Code::Akb007)
            }
        },
    }
}

/// The casefolded key of a string item.
pub open spec fn key_of(item: Json) -> Option<Seq<char>> {
    match item {
        Json::Str(s) => Some(normalize(s@)),
        _ => None,
    }
}

/// Some item before position `n` has casefolded key `key`.
pub open spec fn key_before(items: Seq<Json>, n: int, key: Seq<char>) -> bool {
    exists|j: int| 0 <= j < n && #[trigger] key_of(items[j]) == Some(key)
}

/// The positions of the string items that repeat, casefolded, a string item
/// earlier in the array, ascending.
pub open spec fn casefolded_duplicates(items: Seq<Json>) -> Seq<int>
    decreases items.len(),
{
    if items.len() == 0 {
        seq![]
    } else {
        let earlier = casefolded_duplicates(items.drop_last());
        match key_of(items.last()) {
            Some(key) => if key_before(items, items.len() - 1, key) {
                earlier.push(items.len() - 1)
            } else {
                earlier
            },
            None => earlier,
        }
    }
}

/// The positions of the string items that repeat, casefolded, a string item
/// earlier in the array, ascending.
pub fn casefolded_duplicate_indices(items: &Vec<Json>) -> (r: Vec<usize>)
    ensures
        r@.len() == casefolded_duplicates(items@).len(),
        forall|k: int| 0 <= k < r@.len() ==> r@[k] as int == casefolded_duplicates(items@)[k],
{
    let mut r: Vec<usize> = Vec::new();
    let mut seen: Vec<Vec<char>> = Vec::new();
    let mut i: usize = 0;
    while i < items.len()
        invariant
            0 <= i <= items@.len(),
            r@.len() == casefolded_duplicates(items@.subrange(0, i as int)).len(),
            forall|k: int|
                0 <= k < r@.len() ==> r@[k] as int == casefolded_duplicates(
                    items@.subrange(0, i as int),
                )[k],
            forall|key: Seq<char>|
                keys_view(seen@).contains(key) <==> key_before(items@, i as int, key),
        decreases items@.len() - i,
    {
        let ghost prefix = items@.subrange(0, i + 1);
        assert(prefix.drop_last() =~= items@.subrange(0, i as int));
        proof {
            assert forall|key: Seq<char>| key_before(prefix, i as int, key) == key_before(items@, i as int, key) by {
                if key_before(prefix, i as int, key) {
                    let j = choose|j: int| 0 <= j < i && #[trigger] key_of(prefix[j]) == Some(key);
                    assert(key_of(items@[j]) == Some(key));
                }
                if key_before(items@, i as int, key) {
                    let j = choose|j: int| 0 <= j < i && #[trigger] key_of(items@[j]) == Some(key);
                    assert(key_of(prefix[j]) == Some(key));
                }
            }
            assert(prefix.last() == items@[i as int]);
        }
        let ghost old_seen = seen@;
        match &items[i] {
            Json::Str(s) => {
                let key = normalize_id(s.as_str());
                let repeated = contains_key(&seen, &key);
                if repeated {
                    r.push(i);
                }
                seen.push(key);
                proof {
                    assert(keys_view(seen@) =~= keys_view(old_seen).push(normalize(s@)));
                    assert forall|k: Seq<char>| keys_view(seen@).contains(k) <==> key_before(items@, i + 1, k) by {
                        if keys_view(seen@).contains(k) {
                            let m = choose|m: int| 0 <= m < keys_view(seen@).len() && keys_view(seen@)[m] == k;
                            if m < old_seen.len() {
                                assert(keys_view(old_seen)[m] == k);
                                assert(keys_view(old_seen).contains(k));
                                assert(key_before(items@, i as int, k));
                                let j = choose|j: int| 0 <= j < i && #[trigger] key_of(items@[j]) == Some(k);
                                assert(key_of(items@[j]) == Some(k));
                            } else {
                                assert(key_of(items@[i as int]) == Some(k));
                            }
                        }
                        if key_before(items@, i + 1, k) {
                            let j = choose|j: int| 0 <= j < i + 1 && #[trigger] key_of(items@[j]) == Some(k);
                            if j < i {
                                assert(key_before(items@, i as int, k));
                                let m = choose|m: int| 0 <= m < keys_view(old_seen).len() && keys_view(old_seen)[m] == k;
                                assert(keys_view(seen@)[m] == k);
                            } else {
                                assert(keys_view(seen@)[old_seen.len() as int] == k);
                            }
                        }
                    }
                }
            },
            _ => {
                proof {
                    assert forall|k: Seq<char>| keys_view(seen@).contains(k) <==> key_before(items@, i + 1, k) by {
                        if key_before(items@, i + 1, k) {
                            let j = choose|j: int| 0 <= j < i + 1 && #[trigger] key_of(items@[j]) == Some(k);
                            assert(j != i);
                            assert(key_before(items@, i as int, k));
                        }
                    }
                }
            },
        }
        i = i + 1;
    }
    assert(items@.subrange(0, items@.len() as int) =~= items@);
    r
}

/// Every repeated position is the position of a string item.
pub proof fn lemma_casefolded_duplicates_bounds(items: Seq<Json>)
    ensures
        forall|m: int|
            0 <= m < casefolded_duplicates(items).len() ==> 0 <= #[trigger] casefolded_duplicates(
                items,
            )[m] < items.len() && items[casefolded_duplicates(items)[m]] is Str,
    decreases items.len(),
{
    if items.len() > 0 {
        let p = items.drop_last();
        lemma_casefolded_duplicates_bounds(p);
        assert forall|m: int| 0 <= m < casefolded_duplicates(p).len() implies items[#[trigger] casefolded_duplicates(p)[m]] == p[casefolded_duplicates(p)[m]] by {}
    }
}

} // verus!
