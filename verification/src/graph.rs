//! Cycles of a successor map over normalized ids.

use vstd::prelude::*;

use crate::assoc::{has_key, last_index, lemma_index_facts, lemma_index_push};
use crate::order::{chars_lt, compare_chars, lemma_chars_lt_irreflexive, lemma_chars_lt_total, lemma_chars_lt_transitive};
use crate::text::chars_eq;

verus! {

broadcast use vstd::seq_lib::group_seq_properties;

/// The map that a list of `(key, successor)` pairs denotes: a later pair
/// replaces an earlier one with the same key.
pub open spec fn map_of(v: Seq<(Vec<char>, Vec<char>)>) -> Map<Seq<char>, Seq<char>>
    decreases v.len(),
{
    if v.len() == 0 {
        Map::empty()
    } else {
        map_of(v.drop_last()).insert(v.last().0@, v.last().1@)
    }
}

/// The map holds each key of the list, with the successor of its last pair.
pub proof fn lemma_map_of(v: Seq<(Vec<char>, Vec<char>)>, key: Seq<char>)
    ensures
        map_of(v).contains_key(key) == has_key(v, key),
        map_of(v).contains_key(key) ==> map_of(v)[key] == v[last_index(v, key)->0].1@,
    decreases v.len(),
{
    lemma_index_facts(v, key);
    if v.len() > 0 {
        lemma_map_of(v.drop_last(), key);
        lemma_index_push(v.drop_last(), v.last(), key);
        assert(v.drop_last().push(v.last()) =~= v);
        if has_key(v.drop_last(), key) && v.last().0@ != key {
            let i = last_index(v.drop_last(), key)->0;
            lemma_index_facts(v.drop_last(), key);
            assert(v[i] == v.drop_last()[i]);
        }
    }
}

/// The views of a sequence of ids.
pub open spec fn nodes(c: Seq<Vec<char>>) -> Seq<Seq<char>> {
    c.map_values(|x: Vec<char>| x@)
}

/// `c` is a cycle of `m`: a non-empty sequence of distinct keys, each mapped
/// to the next and the last to the first.
#[verifier::opaque]
pub open spec fn is_cycle(m: Map<Seq<char>, Seq<char>>, c: Seq<Seq<char>>) -> bool {
    &&& c.len() > 0
    &&& forall|i: int, j: int| 0 <= i < j < c.len() ==> c[i] != c[j]
    &&& forall|i: int|
        0 <= i < c.len() ==> #[trigger] m.contains_key(c[i]) && m[c[i]] == c[(i + 1) % (c.len() as int)]
}

/// The first element of `c` sorts before every other.
pub open spec fn starts_at_least(c: Seq<Seq<char>>) -> bool {
    forall|i: int| 0 <= i < c.len() ==> !chars_lt(#[trigger] c[i], c[0])
}

/// `c` is a cycle of `m`, written from its least element.
pub open spec fn canonical_cycle(m: Map<Seq<char>, Seq<char>>, c: Seq<Seq<char>>) -> bool {
    is_cycle(m, c) && starts_at_least(c)
}

/// The rotation of `c` that starts at position `p`.
pub open spec fn rotate(c: Seq<Seq<char>>, p: int) -> Seq<Seq<char>> {
    c.skip(p) + c.take(p)
}

/// The position after `i` in a cycle of length `len`.
proof fn lemma_next_index(i: int, len: int)
    requires
        0 <= i < len,
    ensures
        (i + 1) % len == if i + 1 < len {
            i + 1
        } else {
            0
        },
{
    if i + 1 < len {
        vstd::arithmetic::div_mod::lemma_small_mod((i + 1) as nat, len as nat);
    } else {
        vstd::arithmetic::div_mod::lemma_mod_self_0(len);
    }
}

/// The successor of `key` in the list, when it has one.
pub fn successor<'a>(next: &'a Vec<(Vec<char>, Vec<char>)>, key: &Vec<char>) -> (r: Option<&'a Vec<char>>)
    ensures
        match r {
            Some(x) => map_of(next@).contains_key(key@) && map_of(next@)[key@] == x@,
            None => !map_of(next@).contains_key(key@),
        },
{
    proof {
        lemma_map_of(next@, key@);
        lemma_index_facts(next@, key@);
    }
    match crate::assoc::find_last(next, key) {
        Some(i) => Some(&next[i].1),
        None => None,
    }
}

/// A cycle of a map has at most as many elements as the list has pairs.
proof fn lemma_cycle_len(next: Seq<(Vec<char>, Vec<char>)>, c: Seq<Seq<char>>)
    requires
        is_cycle(map_of(next), c),
    ensures
        c.len() <= next.len(),
{
    reveal(is_cycle);
    let keys = next.map_values(|p: (Vec<char>, Vec<char>)| p.0@);
    assert(c.no_duplicates());
    c.unique_seq_to_set();
    keys.lemma_cardinality_of_set();
    assert forall|x: Seq<char>| c.to_set().contains(x) implies keys.to_set().contains(x) by {
        let i = choose|i: int| 0 <= i < c.len() && c[i] == x;
        assert(map_of(next).contains_key(c[i]));
        lemma_map_of(next, x);
        let j = choose|j: int| 0 <= j < next.len() && #[trigger] next[j].0@ == x;
        assert(keys[j] == x);
    }
    vstd::set_lib::lemma_len_subset(c.to_set(), keys.to_set());
}

/// Whether `v` holds `x`.
pub(crate) fn holds(v: &Vec<Vec<char>>, x: &Vec<char>) -> (r: bool)
    ensures
        r == nodes(v@).contains(x@),
{
    let mut i: usize = 0;
    while i < v.len()
        invariant
            0 <= i <= v@.len(),
            forall|j: int| 0 <= j < i ==> v@[j]@ != x@,
        decreases v@.len() - i,
    {
        if chars_eq(&v[i], x) {
            assert(nodes(v@)[i as int] == x@);
            return true;
        }
        i = i + 1;
    }
    proof {
        if nodes(v@).contains(x@) {
            let j = choose|j: int| 0 <= j < nodes(v@).len() && nodes(v@)[j] == x@;
            assert(v@[j]@ == x@);
        }
    }
    false
}

/// `p` is a walk of `m` from `start` over distinct ids, and a prefix of every
/// cycle of `m` that starts at `start`.
pub open spec fn walk(m: Map<Seq<char>, Seq<char>>, start: Seq<char>, p: Seq<Seq<char>>) -> bool {
    &&& p.len() >= 1
    &&& p[0] == start
    &&& forall|i: int, j: int| 0 <= i < j < p.len() ==> p[i] != p[j]
    &&& forall|t: int|
        0 <= t < p.len() - 1 ==> #[trigger] m.contains_key(p[t]) && m[p[t]] == p[t + 1]
    &&& forall|c: Seq<Seq<char>>|
        is_cycle(m, c) && c[0] == start ==> p.len() <= c.len() && p =~= c.take(p.len() as int)
}

/// A walk whose last id leads back to the start is a cycle.
proof fn lemma_walk_closes(m: Map<Seq<char>, Seq<char>>, start: Seq<char>, p: Seq<Seq<char>>)
    requires
        walk(m, start, p),
        m.contains_key(p.last()),
        m[p.last()] == start,
    ensures
        is_cycle(m, p),
{
    reveal(is_cycle);
    assert forall|i: int| 0 <= i < p.len() implies m.contains_key(#[trigger] p[i]) && m[p[i]] == p[(i
        + 1) % (p.len() as int)] by {
        lemma_next_index(i, p.len() as int);
    }
}

/// A walk that stops without closing excludes every cycle through the start.
proof fn lemma_walk_stops(m: Map<Seq<char>, Seq<char>>, start: Seq<char>, p: Seq<Seq<char>>)
    requires
        walk(m, start, p),
        !m.contains_key(p.last()) || (m[p.last()] != start && p.contains(m[p.last()])),
    ensures
        forall|c: Seq<Seq<char>>| is_cycle(m, c) ==> c[0] != start,
{
    reveal(is_cycle);
    assert forall|c: Seq<Seq<char>>| is_cycle(m, c) implies c[0] != start by {
        if c[0] == start {
            let len = p.len() as int;
            let last = len - 1;
            assert(p[last] == c[last]);
            assert(m.contains_key(c[last]));
            lemma_next_index(last, c.len() as int);
            assert(m[c[last]] == c[(last + 1) % (c.len() as int)]);
            if len < c.len() {
                let j = choose|j: int| 0 <= j < p.len() && p[j] == m[p.last()];
                assert(c[j] == c[len]);
            }
        }
    }
}

/// A walk extends by the successor of its last id when that successor is
/// neither the start nor already on the walk.
proof fn lemma_walk_extends(m: Map<Seq<char>, Seq<char>>, start: Seq<char>, p: Seq<Seq<char>>)
    requires
        walk(m, start, p),
        m.contains_key(p.last()),
        m[p.last()] != start,
        !p.contains(m[p.last()]),
    ensures
        walk(m, start, p.push(m[p.last()])),
{
    reveal(is_cycle);
    let x = m[p.last()];
    let q = p.push(x);
    assert forall|i: int, j: int| 0 <= i < j < q.len() implies q[i] != q[j] by {
        if j == q.len() - 1 {
            assert(q[i] == p[i]);
        }
    }
    assert forall|c: Seq<Seq<char>>| is_cycle(m, c) && c[0] == start implies q.len() <= c.len() && q
        =~= c.take(q.len() as int) by {
        let len = p.len() as int;
        let last = len - 1;
        assert(p[last] == c[last]);
        lemma_next_index(last, c.len() as int);
        assert(m[c[last]] == c[(last + 1) % (c.len() as int)]);
    }
}

/// The cycle of `next` through `start`, written from `start`, if there is one.
fn cycle_from(next: &Vec<(Vec<char>, Vec<char>)>, start: &Vec<char>) -> (r: Option<Vec<Vec<char>>>)
    ensures
        match r {
            Some(c) => is_cycle(map_of(next@), nodes(c@)) && nodes(c@)[0] == start@,
            None => forall|c: Seq<Seq<char>>| is_cycle(map_of(next@), c) ==> c[0] != start@,
        },
{
    let ghost m = map_of(next@);
    let n = next.len();
    let mut path: Vec<Vec<char>> = Vec::new();
    path.push(start.clone());
    let mut steps: usize = 0;
    proof {
        assert forall|c: Seq<Seq<char>>| is_cycle(m, c) && c[0] == start@ implies 1 <= c.len()
            && nodes(path@) =~= c.take(1) by {
            reveal(is_cycle);
        }
    }
    loop
        invariant
            m == map_of(next@),
            n == next@.len(),
            path@.len() == steps + 1,
            steps <= n,
            walk(m, start@, nodes(path@)),
        decreases n - steps,
    {
        let last = path.len() - 1;
        let ghost p = nodes(path@);
        assert(p.last() == path@[last as int]@);
        match successor(next, &path[last]) {
            None => {
                proof {
                    lemma_walk_stops(m, start@, p);
                }
                return None;
            },
            Some(x) => {
                if chars_eq(x, start) {
                    proof {
                        lemma_walk_closes(m, start@, p);
                    }
                    return Some(path);
                }
                if holds(&path, x) {
                    proof {
                        lemma_walk_stops(m, start@, p);
                    }
                    return None;
                }
                if steps == n {
                    proof {
                        assert forall|c: Seq<Seq<char>>| is_cycle(m, c) implies c[0] != start@ by {
                            if c[0] == start@ {
                                lemma_cycle_len(next@, c);
                            }
                        }
                    }
                    return None;
                }
                proof {
                    lemma_walk_extends(m, start@, p);
                }
                path.push(x.clone());
                assert(nodes(path@) =~= p.push(x@));
                steps = steps + 1;
            },
        }
    }
}

/// Rotating a cycle gives a cycle.
proof fn lemma_rotate_cycle(m: Map<Seq<char>, Seq<char>>, c: Seq<Seq<char>>, p: int)
    requires
        is_cycle(m, c),
        0 <= p < c.len(),
    ensures
        is_cycle(m, rotate(c, p)),
        rotate(c, p).len() == c.len(),
        rotate(c, p)[0] == c[p],
        forall|i: int| 0 <= i < c.len() ==> rotate(c, p).contains(#[trigger] c[i]),
{
    reveal(is_cycle);
    let r = rotate(c, p);
    let len = c.len() as int;
    assert(r.len() == len);
    assert forall|i: int| 0 <= i < len implies #[trigger] r[i] == if i < len - p {
        c[i + p]
    } else {
        c[i + p - len]
    } by {}
    assert forall|i: int, j: int| 0 <= i < j < r.len() implies r[i] != r[j] by {
        let a = if i < len - p { i + p } else { i + p - len };
        let b = if j < len - p { j + p } else { j + p - len };
        assert(a != b);
        if a < b {
            assert(c[a] != c[b]);
        } else {
            assert(c[b] != c[a]);
        }
    }
    assert forall|i: int| 0 <= i < r.len() implies m.contains_key(#[trigger] r[i]) && m[r[i]] == r[(i
        + 1) % (r.len() as int)] by {
        let a = if i < len - p { i + p } else { i + p - len };
        assert(r[i] == c[a]);
        assert(m.contains_key(c[a]));
        lemma_next_index(a, len);
        lemma_next_index(i, len);
        assert(m[c[a]] == c[(a + 1) % len]);
    }
    assert forall|i: int| 0 <= i < c.len() implies r.contains(#[trigger] c[i]) by {
        if i >= p {
            assert(r[i - p] == c[i]);
        } else {
            assert(r[i + len - p] == c[i]);
        }
    }
}

/// `c` rotated to start at its least element (the first such one).
fn rotate_to_least(c: &Vec<Vec<char>>) -> (r: Vec<Vec<char>>)
    requires
        c@.len() > 0,
    ensures
        exists|p: int| 0 <= p < c@.len() && nodes(r@) == rotate(nodes(c@), p) && (starts_at_least(
            nodes(c@),
        ) ==> p == 0),
        starts_at_least(nodes(r@)),
{
    let ghost cs = nodes(c@);
    let mut p: usize = 0;
    let mut i: usize = 1;
    proof {
        lemma_chars_lt_irreflexive(cs[0]);
    }
    while i < c.len()
        invariant
            cs == nodes(c@),
            1 <= i <= c@.len(),
            0 <= p < i,
            forall|j: int| 0 <= j < i ==> !chars_lt(#[trigger] cs[j], cs[p as int]),
            starts_at_least(cs) ==> p == 0,
        decreases c@.len() - i,
    {
        let ordering = compare_chars(&c[i], &c[p]);
        if ordering < 0 {
            proof {
                assert forall|j: int| 0 <= j < i + 1 implies !chars_lt(#[trigger] cs[j], cs[i as int]) by {
                    if j < i && chars_lt(cs[j], cs[i as int]) {
                        lemma_chars_lt_transitive(cs[j], cs[i as int], cs[p as int]);
                    }
                    lemma_chars_lt_irreflexive(cs[i as int]);
                }
                if starts_at_least(cs) {
                    assert(!chars_lt(cs[i as int], cs[0]));
                }
            }
            p = i;
        } else {
            proof {
                if chars_lt(cs[i as int], cs[p as int]) {
                } else {
                }
            }
        }
        i = i + 1;
    }
    let mut r: Vec<Vec<char>> = Vec::new();
    let mut k: usize = p;
    while k < c.len()
        invariant
            cs == nodes(c@),
            p <= k <= c@.len(),
            nodes(r@) == cs.subrange(p as int, k as int),
        decreases c@.len() - k,
    {
        let ghost before = r@;
        r.push(copy_chars(&c[k]));
        assert(nodes(r@) =~= nodes(before).push(cs[k as int]));
        assert(nodes(r@) =~= cs.subrange(p as int, k + 1));
        k = k + 1;
    }
    let mut k: usize = 0;
    while k < p
        invariant
            cs == nodes(c@),
            0 <= k <= p,
            p < c@.len(),
            nodes(r@) == cs.subrange(p as int, cs.len() as int) + cs.subrange(0, k as int),
        decreases p - k,
    {
        let ghost before = r@;
        r.push(copy_chars(&c[k]));
        assert(nodes(r@) =~= nodes(before).push(cs[k as int]));
        assert(nodes(r@) =~= cs.subrange(p as int, cs.len() as int) + cs.subrange(0, k + 1));
        k = k + 1;
    }
    assert(nodes(r@) =~= rotate(cs, p as int));
    proof {
        let rr = rotate(cs, p as int);
        assert forall|j: int| 0 <= j < rr.len() implies !chars_lt(#[trigger] rr[j], rr[0]) by {
            if j < cs.len() - p {
                assert(rr[j] == cs[j + p]);
            } else {
                assert(rr[j] == cs[j + p - cs.len()]);
            }
        }
    }
    r
}

/// A copy of an id.
pub(crate) fn copy_chars(v: &Vec<char>) -> (r: Vec<char>)
    ensures
        r@ == v@,
{
    let mut r: Vec<char> = Vec::new();
    crate::text::push_chars(&mut r, v.as_slice());
    r
}

/// Whether two id sequences are equal.
fn same_nodes(a: &Vec<Vec<char>>, b: &Vec<Vec<char>>) -> (r: bool)
    ensures
        r == (nodes(a@) == nodes(b@)),
{
    if a.len() != b.len() {
        assert(nodes(a@).len() != nodes(b@).len());
        return false;
    }
    let mut i: usize = 0;
    while i < a.len()
        invariant
            a@.len() == b@.len(),
            0 <= i <= a@.len(),
            forall|j: int| 0 <= j < i ==> nodes(a@)[j] == nodes(b@)[j],
        decreases a@.len() - i,
    {
        if !chars_eq(&a[i], &b[i]) {
            assert(nodes(a@)[i as int] != nodes(b@)[i as int]);
            return false;
        }
        i = i + 1;
    }
    assert(nodes(a@) =~= nodes(b@));
    true
}

/// The id sequences of a list of cycles.
pub open spec fn cycle_views(cs: Seq<Vec<Vec<char>>>) -> Seq<Seq<Seq<char>>> {
    cs.map_values(|c: Vec<Vec<char>>| nodes(c@))
}

/// Every id sequence of `f` is a canonical cycle of `m`.
#[verifier::opaque]
pub open spec fn all_canonical(m: Map<Seq<char>, Seq<char>>, f: Seq<Seq<Seq<char>>>) -> bool {
    forall|c: Seq<Seq<char>>| f.contains(c) ==> canonical_cycle(m, c)
}

/// Every canonical cycle of `m` whose first id is among `keys` is in `f`.
#[verifier::opaque]
pub open spec fn has_cycles_from(m: Map<Seq<char>, Seq<char>>, f: Seq<Seq<Seq<char>>>, keys: Seq<Seq<char>>) -> bool {
    forall|c: Seq<Seq<char>>| canonical_cycle(m, c) && keys.contains(c[0]) ==> f.contains(c)
}

/// No id sequence occurs twice in `f`.
#[verifier::opaque]
pub open spec fn distinct_cycles(f: Seq<Seq<Seq<char>>>) -> bool {
    forall|i: int, j: int| 0 <= i < j < f.len() ==> f[i] != f[j]
}

/// The keys of the first `i` pairs.
pub open spec fn keys_upto(next: Seq<(Vec<char>, Vec<char>)>, i: int) -> Seq<Seq<char>> {
    next.take(i).map_values(|p: (Vec<char>, Vec<char>)| p.0@)
}

/// One step of the search: the cycles through `key`, if any, have been added.
proof fn lemma_cycles_step(
    m: Map<Seq<char>, Seq<char>>,
    f: Seq<Seq<Seq<char>>>,
    g: Seq<Seq<Seq<char>>>,
    keys: Seq<Seq<char>>,
    key: Seq<char>,
    r: Option<Seq<Seq<char>>>,
)
    requires
        all_canonical(m, f),
        has_cycles_from(m, f, keys),
        distinct_cycles(f),
        match r {
            Some(c) => canonical_cycle(m, c) && (forall|cc: Seq<Seq<char>>|
                canonical_cycle(m, cc) && cc[0] == key ==> cc == c) && g == (if f.contains(c) {
                f
            } else {
                f.push(c)
            }),
            None => (forall|cc: Seq<Seq<char>>| is_cycle(m, cc) ==> cc[0] != key) && g == f,
        },
    ensures
        all_canonical(m, g),
        has_cycles_from(m, g, keys.push(key)),
        distinct_cycles(g),
{
    reveal(all_canonical);
    reveal(has_cycles_from);
    reveal(distinct_cycles);
    assert forall|cc: Seq<Seq<char>>| canonical_cycle(m, cc) && keys.push(key).contains(cc[0]) implies g.contains(cc) by {
        let k = choose|k: int| 0 <= k < keys.push(key).len() && keys.push(key)[k] == cc[0];
        if k < keys.len() {
            assert(keys[k] == cc[0]);
            assert(f.contains(cc));
            let j = choose|j: int| 0 <= j < f.len() && f[j] == cc;
            assert(g[j] == cc);
        } else {
            if let Some(c) = r {
                if !f.contains(c) {
                    assert(g[g.len() - 1] == c);
                }
            }
        }
    }
    assert forall|cc: Seq<Seq<char>>| g.contains(cc) implies canonical_cycle(m, cc) by {
        let j = choose|j: int| 0 <= j < g.len() && g[j] == cc;
        if j < f.len() {
            assert(f[j] == cc);
        }
    }
    assert forall|a: int, b: int| 0 <= a < b < g.len() implies g[a] != g[b] by {
        if let Some(c) = r {
            if !f.contains(c) && b == f.len() {
                assert(g[a] == f[a]);
            }
        }
    }
}

/// The canonical rotation of the cycle found from `key` is the only
/// canonical cycle that starts at `key`.
proof fn lemma_found_cycle(m: Map<Seq<char>, Seq<char>>, c: Seq<Seq<char>>, r: Seq<Seq<char>>, key: Seq<char>, p: int)
    requires
        is_cycle(m, c),
        c[0] == key,
        0 <= p < c.len(),
        r == rotate(c, p),
        starts_at_least(c) ==> p == 0,
        starts_at_least(r),
    ensures
        canonical_cycle(m, r),
        forall|cc: Seq<Seq<char>>| canonical_cycle(m, cc) && cc[0] == key ==> cc == r,
{
    lemma_rotate_cycle(m, c, p);
    assert forall|cc: Seq<Seq<char>>| canonical_cycle(m, cc) && cc[0] == key implies cc == r by {
        lemma_cycle_unique(m, c, cc);
        assert(rotate(c, 0) =~= c);
    }
}

/// Adds `r` to `found` unless it is already there.
fn add_cycle(found: &mut Vec<Vec<Vec<char>>>, r: Vec<Vec<char>>)
    ensures
        cycle_views(final(found)@) == if cycle_views(old(found)@).contains(nodes(r@)) {
            cycle_views(old(found)@)
        } else {
            cycle_views(old(found)@).push(nodes(r@))
        },
{
    let ghost f = cycle_views(found@);
    let mut present = false;
    let mut j: usize = 0;
    while j < found.len()
        invariant
            0 <= j <= found@.len(),
            f == cycle_views(found@),
            present == exists|k: int| 0 <= k < j && f[k] == nodes(r@),
        decreases found@.len() - j,
    {
        let same = same_nodes(&found[j], &r);
        assert(f[j as int] == nodes(found@[j as int]@));
        if same {
            present = true;
        }
        j = j + 1;
    }
    if !present {
        found.push(r);
        assert(cycle_views(found@) =~= f.push(nodes(r@)));
    }
}

/// Adds to `found` the canonical cycle through the key of pair `i`, if any.
fn search_from(next: &Vec<(Vec<char>, Vec<char>)>, i: usize, found: &mut Vec<Vec<Vec<char>>>)
    requires
        0 <= i < next@.len(),
        all_canonical(map_of(next@), cycle_views(old(found)@)),
        has_cycles_from(map_of(next@), cycle_views(old(found)@), keys_upto(next@, i as int)),
        distinct_cycles(cycle_views(old(found)@)),
    ensures
        all_canonical(map_of(next@), cycle_views(final(found)@)),
        has_cycles_from(map_of(next@), cycle_views(final(found)@), keys_upto(next@, i + 1)),
        distinct_cycles(cycle_views(final(found)@)),
{
    let ghost m = map_of(next@);
    let ghost f = cycle_views(found@);
    let ghost key = next@[i as int].0@;
    assert(keys_upto(next@, i + 1) =~= keys_upto(next@, i as int).push(key));
    match cycle_from(next, &next[i].0) {
        Some(c) => {
            proof {
                lemma_cycle_nonempty(m, nodes(c@));
            }
            let r = rotate_to_least(&c);
            let ghost rv = nodes(r@);
            proof {
                let p = choose|p: int| 0 <= p < c@.len() && nodes(r@) == rotate(nodes(c@), p)
                    && (starts_at_least(nodes(c@)) ==> p == 0);
                lemma_found_cycle(m, nodes(c@), nodes(r@), key, p);
            }
            add_cycle(found, r);
            proof {
                lemma_cycles_step(m, f, cycle_views(found@), keys_upto(next@, i as int), key, Some(rv));
            }
        },
        None => {
            proof {
                lemma_cycles_step(m, f, f, keys_upto(next@, i as int), key, None);
            }
        },
    }
}

/// Every cycle of the successor map of `next`, once each, written from its
/// least id.
pub fn cycles(next: &Vec<(Vec<char>, Vec<char>)>) -> (found: Vec<Vec<Vec<char>>>)
    ensures
        forall|c: Seq<Seq<char>>|
            cycle_views(found@).contains(c) <==> canonical_cycle(map_of(next@), c),
        distinct_cycles(cycle_views(found@)),
{
    let ghost m = map_of(next@);
    let mut found: Vec<Vec<Vec<char>>> = Vec::new();
    let mut i: usize = 0;
    assert(keys_upto(next@, 0) =~= seq![]);
    proof {
        reveal(all_canonical);
        reveal(has_cycles_from);
        reveal(distinct_cycles);
    }
    while i < next.len()
        invariant
            0 <= i <= next@.len(),
            m == map_of(next@),
            all_canonical(m, cycle_views(found@)),
            has_cycles_from(m, cycle_views(found@), keys_upto(next@, i as int)),
            distinct_cycles(cycle_views(found@)),
        decreases next@.len() - i,
    {
        search_from(next, i, &mut found);
        i = i + 1;
    }
    proof {
        assert forall|c: Seq<Seq<char>>| canonical_cycle(m, c) implies cycle_views(found@).contains(c) by {
            lemma_cycle_head(m, c);
            lemma_map_of(next@, c[0]);
            let k = choose|k: int| 0 <= k < next@.len() && #[trigger] next@[k].0@ == c[0];
            assert(next@.take(next@.len() as int) =~= next@);
            assert(keys_upto(next@, next@.len() as int)[k] == c[0]);
        }
    }
    found
}

/// A cycle is not empty.
pub proof fn lemma_cycle_nonempty(m: Map<Seq<char>, Seq<char>>, c: Seq<Seq<char>>)
    requires
        is_cycle(m, c),
    ensures
        c.len() > 0,
{
    reveal(is_cycle);
}

/// The first id of a cycle is a key of the map.
proof fn lemma_cycle_head(m: Map<Seq<char>, Seq<char>>, c: Seq<Seq<char>>)
    requires
        is_cycle(m, c),
    ensures
        m.contains_key(c[0]),
{
    reveal(is_cycle);
}

/// Two cycles from the same start are equal.
proof fn lemma_cycle_unique(m: Map<Seq<char>, Seq<char>>, a: Seq<Seq<char>>, b: Seq<Seq<char>>)
    requires
        is_cycle(m, a),
        is_cycle(m, b),
        a[0] == b[0],
    ensures
        a == b,
{
    reveal(is_cycle);
    assert forall|t: int| 0 <= t < a.len() && t < b.len() implies a[t] == b[t] by {
        lemma_cycle_prefix(m, a, b, t);
    }
    if a.len() < b.len() {
        let t = a.len() - 1;
        lemma_next_index(t, a.len() as int);
        lemma_next_index(t, b.len() as int);
        assert(m.contains_key(a[t]));
        assert(m.contains_key(b[t]));
        assert(m[a[t]] == a[0]);
        assert(m[b[t]] == b[t + 1]);
        assert(b[t + 1] != b[0]);
    } else if b.len() < a.len() {
        let t = b.len() - 1;
        lemma_next_index(t, a.len() as int);
        lemma_next_index(t, b.len() as int);
        assert(m.contains_key(a[t]));
        assert(m.contains_key(b[t]));
        assert(m[b[t]] == b[0]);
        assert(m[a[t]] == a[t + 1]);
        assert(a[t + 1] != a[0]);
    }
    assert(a =~= b);
}

/// Each cycle has one canonical form: two canonical cycles of a map over
/// the same ids are the same sequence, so a cycle is reported once.
pub proof fn lemma_canonical_cycle_unique(m: Map<Seq<char>, Seq<char>>, a: Seq<Seq<char>>, b: Seq<Seq<char>>)
    requires
        canonical_cycle(m, a),
        canonical_cycle(m, b),
        a.to_set() == b.to_set(),
    ensures
        a == b,
{
    lemma_cycle_nonempty(m, a);
    lemma_cycle_nonempty(m, b);
    assert(a.to_set().contains(a[0]));
    assert(b.to_set().contains(b[0]));
    assert(b.contains(a[0]));
    assert(a.contains(b[0]));
    let i = choose|i: int| 0 <= i < a.len() && a[i] == b[0];
    let j = choose|j: int| 0 <= j < b.len() && b[j] == a[0];
    assert(!chars_lt(a[i], a[0]));
    assert(!chars_lt(b[j], b[0]));
    if a[0] != b[0] {
        lemma_chars_lt_total(a[0], b[0]);
    }
    lemma_cycle_unique(m, a, b);
}

proof fn lemma_cycle_prefix(m: Map<Seq<char>, Seq<char>>, a: Seq<Seq<char>>, b: Seq<Seq<char>>, t: int)
    requires
        is_cycle(m, a),
        is_cycle(m, b),
        a[0] == b[0],
        0 <= t < a.len(),
        t < b.len(),
    ensures
        a[t] == b[t],
    decreases t,
{
    reveal(is_cycle);
    if t > 0 {
        lemma_cycle_prefix(m, a, b, t - 1);
        lemma_next_index(t - 1, a.len() as int);
        lemma_next_index(t - 1, b.len() as int);
        assert(m.contains_key(a[t - 1]));
        assert(m.contains_key(b[t - 1]));
        assert(m[a[t - 1]] == a[t]);
        assert(m[b[t - 1]] == b[t]);
    }
}

/// The map of a sequence of `(key, successor)` pairs: a later pair replaces
/// an earlier one with the same key.
pub open spec fn pairs_map(p: Seq<(Seq<char>, Seq<char>)>) -> Map<Seq<char>, Seq<char>>
    decreases p.len(),
{
    if p.len() == 0 {
        Map::empty()
    } else {
        pairs_map(p.drop_last()).insert(p.last().0, p.last().1)
    }
}

/// The values of a list of pairs.
pub open spec fn pair_views(v: Seq<(Vec<char>, Vec<char>)>) -> Seq<(Seq<char>, Seq<char>)> {
    v.map_values(|x: (Vec<char>, Vec<char>)| (x.0@, x.1@))
}

/// The map of a list is the map of its values.
pub proof fn lemma_map_of_pairs(v: Seq<(Vec<char>, Vec<char>)>)
    ensures
        map_of(v) == pairs_map(pair_views(v)),
    decreases v.len(),
{
    if v.len() > 0 {
        lemma_map_of_pairs(v.drop_last());
        assert(pair_views(v.drop_last()) =~= pair_views(v).drop_last());
    }
}

} // verus!
