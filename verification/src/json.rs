//! The JSON value model that descriptors are read from.

use vstd::prelude::*;

use crate::text::{chars_of, push_chars, string_of};

verus! {

/// A JSON value.
///
/// Numbers keep their JSON text, since no rule of the validator computes with
/// them. Object members keep their order; when a key occurs more than once,
/// the last member with that key is the one that counts, as in a JSON parser
/// that builds a map.
#[derive(Debug)]
pub enum Json {
    Null,
    Bool(bool),
    Number(String),
    Str(String),
    Array(Vec<Json>),
    Object(Vec<(String, Json)>),
}

/// The value of the last member of `members` whose key is `key`.
pub open spec fn member(members: Seq<(String, Json)>, key: Seq<char>) -> Option<Json>
    decreases members.len(),
{
    if members.len() == 0 {
        None
    } else if members.last().0@ == key {
        Some(members.last().1)
    } else {
        member(members.drop_last(), key)
    }
}

/// The value of member `key` of an object; `None` for a missing key or a
/// value that is not an object.
pub open spec fn get(value: Json, key: Seq<char>) -> Option<Json> {
    match value {
        Json::Object(members) => member(members@, key),
        _ => None,
    }
}

/// The characters of a string value.
pub open spec fn str_of(value: Option<Json>) -> Option<Seq<char>> {
    match value {
        Some(Json::Str(s)) => Some(s@),
        _ => None,
    }
}

/// The items of an array value.
pub open spec fn items_of(value: Option<Json>) -> Option<Seq<Json>> {
    match value {
        Some(Json::Array(items)) => Some(items@),
        _ => None,
    }
}

impl Json {
    /// The value of member `key` when this is an object.
    pub fn get(&self, key: &str) -> (r: Option<&Json>)
        ensures
            match r {
                Some(v) => get(*self, key@) == Some(*v),
                None => get(*self, key@) is None,
            },
    {
        match self {
            Json::Object(members) => member_of(members, key),
            _ => None,
        }
    }

    /// The string when this is a string.
    pub fn as_str(&self) -> (r: Option<&str>)
        ensures
            match r {
                Some(s) => *self matches Json::Str(t) && t@ == s@,
                None => !(*self is Str),
            },
    {
        match self {
            Json::Str(s) => Some(s.as_str()),
            _ => None,
        }
    }

    /// The items when this is an array.
    pub fn as_array(&self) -> (r: Option<&Vec<Json>>)
        ensures
            match r {
                Some(items) => *self == Json::Array(*items),
                None => !(*self is Array),
            },
    {
        match self {
            Json::Array(items) => Some(items),
            _ => None,
        }
    }

    /// The members when this is an object.
    pub fn as_object(&self) -> (r: Option<&Vec<(String, Json)>>)
        ensures
            match r {
                Some(members) => *self == Json::Object(*members),
                None => !(*self is Object),
            },
    {
        match self {
            Json::Object(members) => Some(members),
            _ => None,
        }
    }
}

/// The value of the last member of `members` whose key is `key`.
pub fn member_of<'a>(members: &'a Vec<(String, Json)>, key: &str) -> (r: Option<&'a Json>)
    ensures
        match r {
            Some(v) => member(members@, key@) == Some(*v),
            None => member(members@, key@) is None,
        },
{
    let key_chars = chars_of(key);
    let mut i: usize = members.len();
    assert(members@.subrange(0, i as int) =~= members@);
    while i > 0
        invariant
            0 <= i <= members@.len(),
            key_chars@ == key@,
            member(members@, key@) == member(members@.subrange(0, i as int), key@),
        decreases i,
    {
        let ghost prefix = members@.subrange(0, i as int);
        assert(prefix.drop_last() =~= members@.subrange(0, i - 1));
        let k = chars_of(members[i - 1].0.as_str());
        if crate::text::chars_eq(&k, &key_chars) {
            return Some(&members[i - 1].1);
        }
        i = i - 1;
    }
    None
}

/// The string inside a possibly absent value.
pub fn str_in<'a>(value: Option<&'a Json>) -> (r: Option<&'a str>)
    ensures
        match r {
            Some(s) => value matches Some(v) && v matches Json::Str(t) && t@ == s@,
            None => !(value matches Some(v) && v is Str),
        },
{
    match value {
        Some(v) => v.as_str(),
        None => None,
    }
}

// ---------------------------------------------------------------------------
// JSON text

/// The hexadecimal digit for `d < 16`.
pub open spec fn hex_digit(d: nat) -> char {
    if d < 10 {
        crate::catalog::digit_char(d)
    } else if d == 10 {
        'a'
    } else if d == 11 {
        'b'
    } else if d == 12 {
        'c'
    } else if d == 13 {
        'd'
    } else if d == 14 {
        'e'
    } else {
        'f'
    }
}

/// A character inside a JSON string literal: quote, backslash and control
/// characters are escaped, every other character stands for itself.
pub open spec fn escape_json_char(c: char) -> Seq<char> {
    let n = (c as u32) as nat;
    if c == '"' {
        seq!['\\', '"']
    } else if c == '\\' {
        seq!['\\', '\\']
    } else if n < 32 {
        seq!['\\', 'u', '0', '0', hex_digit(n / 16), hex_digit(n % 16)]
    } else {
        seq![c]
    }
}

/// The characters of `s` escaped for a JSON string literal.
pub open spec fn escape_json(s: Seq<char>) -> Seq<char>
    decreases s.len(),
{
    if s.len() == 0 {
        seq![]
    } else {
        escape_json(s.drop_last()) + escape_json_char(s.last())
    }
}

/// A JSON string literal.
pub open spec fn quoted(s: Seq<char>) -> Seq<char> {
    seq!['"'] + escape_json(s) + seq!['"']
}

/// The JSON text of a value.
pub open spec fn render(value: Json) -> Seq<char>
    decreases value,
{
    match value {
        Json::Null => seq!['n', 'u', 'l', 'l'],
        Json::Bool(b) => if b {
            seq!['t', 'r', 'u', 'e']
        } else {
            seq!['f', 'a', 'l', 's', 'e']
        },
        Json::Number(text) => text@,
        Json::Str(s) => quoted(s@),
        Json::Array(items) => seq!['['] + render_items(items@) + seq![']'],
        Json::Object(members) => seq!['{'] + render_members(members@) + seq!['}'],
    }
}

/// The JSON text of array items, separated by commas.
pub open spec fn render_items(items: Seq<Json>) -> Seq<char>
    decreases items,
{
    if items.len() == 0 {
        seq![]
    } else if items.len() == 1 {
        render(items[0])
    } else {
        render_items(items.drop_last()) + seq![','] + render(items.last())
    }
}

/// The JSON text of object members, separated by commas.
pub open spec fn render_members(members: Seq<(String, Json)>) -> Seq<char>
    decreases members,
{
    if members.len() == 0 {
        seq![]
    } else if members.len() == 1 {
        quoted(members[0].0@) + seq![':'] + render(members[0].1)
    } else {
        render_members(members.drop_last()) + seq![','] + quoted(members.last().0@) + seq![':']
            + render(members.last().1)
    }
}

/// The hexadecimal digit for `d < 16`.
fn hex(d: u32) -> (c: char)
    requires
        d < 16,
    ensures
        c == hex_digit(d as nat),
{
    if d == 0 { '0' }
    else if d == 1 { '1' }
    else if d == 2 { '2' }
    else if d == 3 { '3' }
    else if d == 4 { '4' }
    else if d == 5 { '5' }
    else if d == 6 { '6' }
    else if d == 7 { '7' }
    else if d == 8 { '8' }
    else if d == 9 { '9' }
    else if d == 10 { 'a' }
    else if d == 11 { 'b' }
    else if d == 12 { 'c' }
    else if d == 13 { 'd' }
    else if d == 14 { 'e' }
    else { 'f' }
}

/// Appends `s` as a JSON string literal to `out`.
fn push_quoted(out: &mut Vec<char>, s: &str)
    ensures
        final(out)@ == old(out)@ + quoted(s@),
{
    let chars = chars_of(s);
    out.push('"');
    let ghost start = out@;
    let mut i: usize = 0;
    while i < chars.len()
        invariant
            0 <= i <= chars@.len(),
            chars@ == s@,
            out@ == start + escape_json(s@.subrange(0, i as int)),
        decreases chars@.len() - i,
    {
        let c = chars[i];
        let n = c as u32;
        if c == '"' {
            out.push('\\');
            out.push('"');
        } else if c == '\\' {
            out.push('\\');
            out.push('\\');
        } else if n < 32 {
            out.push('\\');
            out.push('u');
            out.push('0');
            out.push('0');
            out.push(hex(n / 16));
            out.push(hex(n % 16));
        } else {
            out.push(c);
        }
        proof {
            let next = s@.subrange(0, i + 1);
            assert(next.drop_last() =~= s@.subrange(0, i as int));
            assert(next.last() == c);
        }
        i = i + 1;
    }
    assert(s@.subrange(0, s@.len() as int) =~= s@);
    out.push('"');
}

/// Appends the JSON text of `value` to `out`.
pub fn push_rendered(out: &mut Vec<char>, value: &Json)
    ensures
        final(out)@ == old(out)@ + render(*value),
    decreases value,
{
    match value {
        Json::Null => {
            out.push('n');
            out.push('u');
            out.push('l');
            out.push('l');
        },
        Json::Bool(b) => {
            if *b {
                out.push('t');
                out.push('r');
                out.push('u');
                out.push('e');
            } else {
                out.push('f');
                out.push('a');
                out.push('l');
                out.push('s');
                out.push('e');
            }
        },
        Json::Number(text) => {
            let t = chars_of(text.as_str());
            push_chars(out, &t);
        },
        Json::Str(s) => push_quoted(out, s.as_str()),
        Json::Array(items) => {
            out.push('[');
            proof {
                assert(decreases_to!(*value => *items));
            }
            push_items(out, items);
            out.push(']');
        },
        Json::Object(members) => {
            out.push('{');
            proof {
                assert(decreases_to!(*value => *members));
            }
            push_members(out, members);
            out.push('}');
        },
    }
}

/// Appends the JSON text of array items to `out`.
fn push_items(out: &mut Vec<char>, items: &Vec<Json>)
    ensures
        final(out)@ == old(out)@ + render_items(items@),
    decreases items,
{
    let ghost start = out@;
    let mut i: usize = 0;
    while i < items.len()
        invariant
            0 <= i <= items@.len(),
            out@ == start + render_items(items@.subrange(0, i as int)),
        decreases items@.len() - i,
    {
        if i > 0 {
            out.push(',');
        }
        proof {
            assert(decreases_to!(*items => items@));
            assert(decreases_to!(items@ => items@[i as int]));
        }
        push_rendered(out, &items[i]);
        proof {
            let next = items@.subrange(0, i + 1);
            assert(next.drop_last() =~= items@.subrange(0, i as int));
            if i == 0 {
                assert(next[0] == items@[0]);
            }
        }
        i = i + 1;
    }
    assert(items@.subrange(0, items@.len() as int) =~= items@);
}

/// Appends the JSON text of object members to `out`.
fn push_members(out: &mut Vec<char>, members: &Vec<(String, Json)>)
    ensures
        final(out)@ == old(out)@ + render_members(members@),
    decreases members,
{
    let ghost start = out@;
    let mut i: usize = 0;
    while i < members.len()
        invariant
            0 <= i <= members@.len(),
            out@ == start + render_members(members@.subrange(0, i as int)),
        decreases members@.len() - i,
    {
        if i > 0 {
            out.push(',');
        }
        push_quoted(out, members[i].0.as_str());
        out.push(':');
        proof {
            assert(decreases_to!(*members => members@));
            assert(decreases_to!(members@ => members@[i as int]));
            assert(decreases_to!(members@[i as int] => members@[i as int].1));
        }
        push_rendered(out, &members[i].1);
        proof {
            let next = members@.subrange(0, i + 1);
            assert(next.drop_last() =~= members@.subrange(0, i as int));
            if i == 0 {
                assert(next[0] == members@[0]);
            }
        }
        i = i + 1;
    }
    assert(members@.subrange(0, members@.len() as int) =~= members@);
}

/// The JSON text of `value`.
pub fn render_json(value: &Json) -> (text: String)
    ensures
        text@ == render(*value),
{
    let mut out: Vec<char> = Vec::new();
    push_rendered(&mut out, value);
    string_of(&out)
}

// ---------------------------------------------------------------------------
// Nesting depth

/// The structural nesting depth of a value: the number of arrays and objects
/// on the deepest path into it (0 for a scalar, 1 for an empty container).
pub open spec fn json_depth(value: Json) -> nat
    decreases value,
{
    match value {
        Json::Array(items) => 1 + items_depth(items@),
        Json::Object(members) => 1 + members_depth(members@),
        _ => 0,
    }
}

/// The deepest nesting among array items.
pub open spec fn items_depth(items: Seq<Json>) -> nat
    decreases items,
{
    if items.len() == 0 {
        0
    } else {
        let a = items_depth(items.drop_last());
        let b = json_depth(items.last());
        if a >= b {
            a
        } else {
            b
        }
    }
}

/// The deepest nesting among object member values.
pub open spec fn members_depth(members: Seq<(String, Json)>) -> nat
    decreases members,
{
    if members.len() == 0 {
        0
    } else {
        let a = members_depth(members.drop_last());
        let b = json_depth(members.last().1);
        if a >= b {
            a
        } else {
            b
        }
    }
}

proof fn lemma_items_depth_prefix(items: Seq<Json>, k: int)
    requires
        0 <= k <= items.len(),
    ensures
        items_depth(items.take(k)) <= items_depth(items),
    decreases items.len() - k,
{
    if k < items.len() {
        lemma_items_depth_prefix(items, k + 1);
        assert(items.take(k + 1).drop_last() =~= items.take(k));
    } else {
        assert(items.take(k) =~= items);
    }
}

proof fn lemma_members_depth_prefix(members: Seq<(String, Json)>, k: int)
    requires
        0 <= k <= members.len(),
    ensures
        members_depth(members.take(k)) <= members_depth(members),
    decreases members.len() - k,
{
    if k < members.len() {
        lemma_members_depth_prefix(members, k + 1);
        assert(members.take(k + 1).drop_last() =~= members.take(k));
    } else {
        assert(members.take(k) =~= members);
    }
}

/// Whether the value nests deeper than `limit`.
pub fn deeper_than(value: &Json, limit: usize) -> (r: bool)
    ensures
        r == (json_depth(*value) > limit),
    decreases value,
{
    match value {
        Json::Array(items) => {
            if limit == 0 {
                return true;
            }
            proof {
                assert(decreases_to!(*value => *items));
            }
            items_deeper_than(items, limit - 1)
        },
        Json::Object(members) => {
            if limit == 0 {
                return true;
            }
            proof {
                assert(decreases_to!(*value => *members));
            }
            members_deeper_than(members, limit - 1)
        },
        _ => false,
    }
}

/// Whether some array item nests deeper than `limit`.
fn items_deeper_than(items: &Vec<Json>, limit: usize) -> (r: bool)
    ensures
        r == (items_depth(items@) > limit),
    decreases items,
{
    let mut i: usize = 0;
    assert(items@.take(0) =~= Seq::<Json>::empty());
    while i < items.len()
        invariant
            0 <= i <= items@.len(),
            items_depth(items@.take(i as int)) <= limit,
        decreases items@.len() - i,
    {
        proof {
            assert(decreases_to!(*items => items@));
            assert(decreases_to!(items@ => items@[i as int]));
        }
        let deep = deeper_than(&items[i], limit);
        assert(items@.take(i + 1).drop_last() =~= items@.take(i as int));
        assert(items@.take(i + 1).last() == items@[i as int]);
        if deep {
            proof {
                lemma_items_depth_prefix(items@, i + 1);
            }
            return true;
        }
        i = i + 1;
    }
    assert(items@.take(items@.len() as int) =~= items@);
    false
}

/// Whether some member value nests deeper than `limit`.
fn members_deeper_than(members: &Vec<(String, Json)>, limit: usize) -> (r: bool)
    ensures
        r == (members_depth(members@) > limit),
    decreases members,
{
    let mut i: usize = 0;
    assert(members@.take(0) =~= Seq::<(String, Json)>::empty());
    while i < members.len()
        invariant
            0 <= i <= members@.len(),
            members_depth(members@.take(i as int)) <= limit,
        decreases members@.len() - i,
    {
        proof {
            assert(decreases_to!(*members => members@));
            assert(decreases_to!(members@ => members@[i as int]));
            assert(decreases_to!(members@[i as int] => members@[i as int].1));
        }
        let deep = deeper_than(&members[i].1, limit);
        assert(members@.take(i + 1).drop_last() =~= members@.take(i as int));
        assert(members@.take(i + 1).last() == members@[i as int]);
        if deep {
            proof {
                lemma_members_depth_prefix(members@, i + 1);
            }
            return true;
        }
        i = i + 1;
    }
    assert(members@.take(members@.len() as int) =~= members@);
    false
}

} // verus!
