//! Association lists keyed by character sequences.
//!
//! The validator's maps are keyed by normalized ids. They are kept as lists
//! of `(key, value)` pairs; a lookup finds the first or the last pair with a
//! key, which gives the "first declaration wins" and the "last insertion
//! wins" map semantics the rules need.

use vstd::prelude::*;

use crate::text::chars_eq;

verus! {

/// The position of the first pair of `v` with key `key`.
pub open spec fn first_index<V>(v: Seq<(Vec<char>, V)>, key: Seq<char>) -> Option<int>
    decreases v.len(),
{
    if v.len() == 0 {
        None
    } else {
        match first_index(v.drop_last(), key) {
            Some(i) => Some(i),
            None => if v.last().0@ == key {
                Some(v.len() - 1)
            } else {
                None
            },
        }
    }
}

/// The position of the last pair of `v` with key `key`.
pub open spec fn last_index<V>(v: Seq<(Vec<char>, V)>, key: Seq<char>) -> Option<int>
    decreases v.len(),
{
    if v.len() == 0 {
        None
    } else if v.last().0@ == key {
        Some(v.len() - 1)
    } else {
        last_index(v.drop_last(), key)
    }
}

/// Some pair of `v` has key `key`.
pub open spec fn has_key<V>(v: Seq<(Vec<char>, V)>, key: Seq<char>) -> bool {
    exists|i: int| 0 <= i < v.len() && #[trigger] v[i].0@ == key
}

/// Facts about the first and last positions of a key.
pub proof fn lemma_index_facts<V>(v: Seq<(Vec<char>, V)>, key: Seq<char>)
    ensures
        first_index(v, key) is Some <==> has_key(v, key),
        last_index(v, key) is Some <==> has_key(v, key),
        first_index(v, key) matches Some(i) ==> 0 <= i < v.len() && v[i].0@ == key && forall|j: int|
            0 <= j < i ==> v[j].0@ != key,
        last_index(v, key) matches Some(i) ==> 0 <= i < v.len() && v[i].0@ == key && forall|j: int|
            i < j < v.len() ==> v[j].0@ != key,
    decreases v.len(),
{
    if v.len() > 0 {
        let p = v.drop_last();
        lemma_index_facts(p, key);
        assert forall|i: int| 0 <= i < p.len() implies p[i] == v[i] by {}
        if has_key(v, key) && !has_key(p, key) {
            let i = choose|i: int| 0 <= i < v.len() && #[trigger] v[i].0@ == key;
            if i < p.len() {
                assert(p[i].0@ == key);
            }
        }
        if has_key(p, key) {
            let i = choose|i: int| 0 <= i < p.len() && #[trigger] p[i].0@ == key;
            assert(v[i].0@ == key);
        }
    }
}

/// Pushing a pair extends the lookups as expected.
pub proof fn lemma_index_push<V>(v: Seq<(Vec<char>, V)>, x: (Vec<char>, V), key: Seq<char>)
    ensures
        first_index(v.push(x), key) == (match first_index(v, key) {
            Some(i) => Some(i),
            None => if x.0@ == key {
                Some(v.len() as int)
            } else {
                None
            },
        }),
        last_index(v.push(x), key) == (if x.0@ == key {
            Some(v.len() as int)
        } else {
            last_index(v, key)
        }),
        has_key(v.push(x), key) == (has_key(v, key) || x.0@ == key),
{
    assert(v.push(x).drop_last() =~= v);
    lemma_index_facts(v, key);
    lemma_index_facts(v.push(x), key);
}

/// The position of the first pair of `v` with key `key`.
pub fn find_first<V>(v: &Vec<(Vec<char>, V)>, key: &Vec<char>) -> (r: Option<usize>)
    ensures
        match r {
            Some(i) => first_index(v@, key@) == Some(i as int),
            None => first_index(v@, key@) is None,
        },
{
    proof {
        lemma_index_facts(v@, key@);
    }
    let mut i: usize = 0;
    while i < v.len()
        invariant
            0 <= i <= v@.len(),
            forall|j: int| 0 <= j < i ==> v@[j].0@ != key@,
        decreases v@.len() - i,
    {
        if chars_eq(&v[i].0, key) {
            proof {
                lemma_index_facts(v@, key@);
                assert(v@[i as int].0@ == key@);
                match first_index(v@, key@) {
                    Some(f) => {
                        if f < i {
                            assert(v@[f].0@ != key@);
                        }
                        if f > i {
                            assert(v@[i as int].0@ != key@);
                        }
                    },
                    None => {
                        assert(has_key(v@, key@));
                    },
                }
            }
            return Some(i);
        }
        i = i + 1;
    }
    proof {
        if has_key(v@, key@) {
            let j = choose|j: int| 0 <= j < v@.len() && #[trigger] v@[j].0@ == key@;
        }
    }
    None
}

/// The position of the last pair of `v` with key `key`.
pub fn find_last<V>(v: &Vec<(Vec<char>, V)>, key: &Vec<char>) -> (r: Option<usize>)
    ensures
        match r {
            Some(i) => last_index(v@, key@) == Some(i as int),
            None => last_index(v@, key@) is None,
        },
{
    proof {
        lemma_index_facts(v@, key@);
    }
    let mut i: usize = v.len();
    while i > 0
        invariant
            0 <= i <= v@.len(),
            forall|j: int| i <= j < v@.len() ==> v@[j].0@ != key@,
        decreases i,
    {
        if chars_eq(&v[i - 1].0, key) {
            proof {
                lemma_index_facts(v@, key@);
                assert(v@[i - 1].0@ == key@);
                match last_index(v@, key@) {
                    Some(f) => {
                        if f > i - 1 {
                            assert(v@[f].0@ != key@);
                        }
                        if f < i - 1 {
                            assert(v@[i - 1].0@ != key@);
                        }
                    },
                    None => {
                        assert(has_key(v@, key@));
                    },
                }
            }
            return Some(i - 1);
        }
        i = i - 1;
    }
    proof {
        if has_key(v@, key@) {
            let j = choose|j: int| 0 <= j < v@.len() && #[trigger] v@[j].0@ == key@;
        }
    }
    None
}

} // verus!
