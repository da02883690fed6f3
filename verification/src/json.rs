//! JSON values: copying, equality, and the objects that carry metadata.

use vstd::prelude::*;

use crate::text::{before, lemma_text_less_total, lemma_text_less_transitive, same, text_less};

verus! {

/// A JSON number. A float is held by the bits of its IEEE 754 double.
#[derive(Clone, Copy, Debug, PartialEq, Eq, Structural)]
pub enum Number {
    PosInt(u64),
    NegInt(i64),
    Float(u64),
}

/// A JSON value.
#[derive(Debug)]
pub enum Json {
    Null,
    Bool(bool),
    Number(Number),
    Str(String),
    Array(Vec<Json>),
    Object(Vec<(String, Json)>),
}

/// What a JSON value is, as mathematics.
pub enum JsonView {
    Null,
    Bool(bool),
    Number(Number),
    Str(Seq<char>),
    Array(Seq<JsonView>),
    Object(Seq<(Seq<char>, JsonView)>),
}

impl View for Json {
    type V = JsonView;

    open spec fn view(&self) -> JsonView
        decreases self,
    {
        match self {
            Json::Null => JsonView::Null,
            Json::Bool(b) => JsonView::Bool(*b),
            Json::Number(n) => JsonView::Number(*n),
            Json::Str(s) => JsonView::Str(s@),
            Json::Array(items) => JsonView::Array(
                Seq::new(
                    items@.len(),
                    |i: int|
                        if 0 <= i < items@.len() {
                            items@[i].view()
                        } else {
                            JsonView::Null
                        },
                ),
            ),
            Json::Object(members) => JsonView::Object(
                Seq::new(
                    members@.len(),
                    |i: int|
                        if 0 <= i < members@.len() {
                            (members@[i].0@, members@[i].1.view())
                        } else {
                            (Seq::empty(), JsonView::Null)
                        },
                ),
            ),
        }
    }
}

/// The values of a list.
pub open spec fn json_views(items: Seq<Json>) -> Seq<JsonView> {
    Seq::new(items.len(), |i: int| items[i]@)
}

/// The members of an object.
pub open spec fn member_views(members: Seq<(String, Json)>) -> Seq<(Seq<char>, JsonView)> {
    Seq::new(members.len(), |i: int| (members[i].0@, members[i].1@))
}

/// What an array and an object show.
pub proof fn lemma_json_view(value: Json)
    ensures
        value matches Json::Array(items) ==> value@ == JsonView::Array(json_views(items@)),
        value matches Json::Object(members) ==> value@ == JsonView::Object(member_views(members@)),
{
    reveal_with_fuel(<Json as View>::view, 2);
    match value {
        Json::Array(items) => {
            assert(value@->Array_0 =~= json_views(items@));
        },
        Json::Object(members) => {
            assert(value@->Object_0 =~= member_views(members@));
        },
        _ => {},
    }
}

impl Json {
    /// A copy of the value.
    pub fn copy(&self) -> (r: Json)
        ensures
            r@ == self@,
        decreases self,
    {
        match self {
            Json::Null => Json::Null,
            Json::Bool(b) => Json::Bool(*b),
            Json::Number(n) => Json::Number(*n),
            Json::Str(s) => Json::Str(s.clone()),
            Json::Array(items) => {
                let mut list: Vec<Json> = Vec::new();
                let mut i: usize = 0;
                while i < items.len()
                    invariant
                        i <= items@.len(),
                        *self == Json::Array(*items),
                        list@.len() == i,
                        forall|j: int| 0 <= j < i ==> (#[trigger] list@[j])@ == items@[j]@,
                    decreases items@.len() - i,
                {
                    assert(decreases_to!(self => self->Array_0@[i as int]));
                    let item = items[i].copy();
                    list.push(item);
                    i += 1;
                }
                let r = Json::Array(list);
                proof {
                    lemma_json_view(r);
                    lemma_json_view(*self);
                    assert(json_views(list@) =~= json_views(items@));
                }
                r
            },
            Json::Object(members) => {
                let mut list: Vec<(String, Json)> = Vec::new();
                let mut i: usize = 0;
                while i < members.len()
                    invariant
                        i <= members@.len(),
                        *self == Json::Object(*members),
                        list@.len() == i,
                        forall|j: int|
                            0 <= j < i ==> (#[trigger] list@[j]).0@ == members@[j].0@
                                && list@[j].1@ == members@[j].1@,
                    decreases members@.len() - i,
                {
                    assert(decreases_to!(self => self->Object_0@[i as int].1));
                    let item = members[i].1.copy();
                    list.push((members[i].0.clone(), item));
                    i += 1;
                }
                let r = Json::Object(list);
                proof {
                    lemma_json_view(r);
                    lemma_json_view(*self);
                    assert(member_views(list@) =~= member_views(members@));
                }
                r
            },
        }
    }
}

/// Where `key` first stands among the members of an object.
pub open spec fn member_at(members: Seq<(Seq<char>, JsonView)>, key: Seq<char>) -> Option<int>
    decreases members.len(),
{
    if members.len() == 0 {
        None
    } else {
        match member_at(members.drop_last(), key) {
            Some(i) => Some(i),
            None => if members.last().0 == key {
                Some(members.len() - 1)
            } else {
                None
            },
        }
    }
}

/// The member found has the key, and none before it does; where none is found,
/// no member has the key.
pub proof fn lemma_member_at(members: Seq<(Seq<char>, JsonView)>, key: Seq<char>)
    ensures
        match member_at(members, key) {
            Some(i) => 0 <= i < members.len() && members[i].0 == key && forall|j: int|
                0 <= j < i ==> (#[trigger] members[j]).0 != key,
            None => forall|j: int| 0 <= j < members.len() ==> (#[trigger] members[j]).0 != key,
        },
    decreases members.len(),
{
    if members.len() > 0 {
        let rest = members.drop_last();
        lemma_member_at(rest, key);
        match member_at(rest, key) {
            Some(i) => {
                assert(members[i] == rest[i]);
                assert forall|j: int| 0 <= j < i implies (#[trigger] members[j]).0 != key by {
                    assert(rest[j] == members[j]);
                }
            },
            None => {
                assert forall|j: int| 0 <= j < rest.len() implies (#[trigger] members[j]).0
                    != key by {
                    assert(rest[j] == members[j]);
                }
            },
        }
    }
}

/// The value of `key`.
pub open spec fn member(members: Seq<(Seq<char>, JsonView)>, key: Seq<char>) -> Option<JsonView> {
    match member_at(members, key) {
        Some(i) => Some(members[i].1),
        None => None,
    }
}

/// Where `key` stands among members.
pub fn find_member(members: &Vec<(String, Json)>, key: &str) -> (at: Option<usize>)
    ensures
        match at {
            Some(i) => i < members@.len() && member_at(member_views(members@), key@) == Some(
                i as int,
            ),
            None => member_at(member_views(members@), key@) is None,
        },
{
    let ghost views = member_views(members@);
    let mut i: usize = 0;
    while i < members.len()
        invariant
            i <= members@.len(),
            views == member_views(members@),
            forall|j: int| 0 <= j < i ==> (#[trigger] views[j]).0 != key@,
        decreases members@.len() - i,
    {
        assert(views[i as int].0 == members@[i as int].0@);
        if same(members[i].0.as_str(), key) {
            proof {
                lemma_member_at(views, key@);
            }
            return Some(i);
        }
        i += 1;
    }
    proof {
        lemma_member_at(views, key@);
    }
    None
}

/// The bits of a double that is zero, of either sign.
pub open spec fn zero_bits(bits: u64) -> bool {
    bits == 0 || bits == 0x8000_0000_0000_0000
}

/// Numbers of one form and one value. The two zeros of a double are equal.
pub open spec fn same_number(a: Number, b: Number) -> bool {
    match (a, b) {
        (Number::Float(x), Number::Float(y)) => x == y || (zero_bits(x) && zero_bits(y)),
        _ => a == b,
    }
}

/// Equal JSON values. Objects are equal as maps: the order of members does not
/// count.
pub open spec fn same_value(a: JsonView, b: JsonView) -> bool
    decreases a,
{
    match (a, b) {
        (JsonView::Number(x), JsonView::Number(y)) => same_number(x, y),
        (JsonView::Array(x), JsonView::Array(y)) => x.len() == y.len() && forall|i: int|
            0 <= i < x.len() ==> same_value(#[trigger] x[i], y[i]),
        (JsonView::Object(x), JsonView::Object(y)) => {
            &&& forall|i: int|
                0 <= i < x.len() ==> match member_at(y, (#[trigger] x[i]).0) {
                    Some(j) => same_value(x[i].1, y[j].1),
                    None => false,
                }
            &&& forall|j: int|
                0 <= j < y.len() ==> member_at(x, (#[trigger] y[j]).0) is Some
        },
        _ => a == b,
    }
}

/// Members in ascending key order, each key once.
pub open spec fn ordered(members: Seq<(Seq<char>, JsonView)>) -> bool {
    forall|i: int, j: int|
        0 <= i < j < members.len() ==> text_less(
            (#[trigger] members[i]).0,
            (#[trigger] members[j]).0,
        )
}

/// Members as a map.
pub open spec fn members_map(members: Seq<(Seq<char>, JsonView)>) -> Map<Seq<char>, JsonView> {
    Map::new(|k: Seq<char>| member_at(members, k) is Some, |k: Seq<char>| member(members, k)->0)
}

/// Sets `key` to `value` among ordered members.
pub fn set_member(members: &mut Vec<(String, Json)>, key: &str, value: Json)
    requires
        ordered(member_views(old(members)@)),
    ensures
        ordered(member_views(final(members)@)),
        members_map(member_views(final(members)@)) == members_map(
            member_views(old(members)@),
        ).insert(key@, value@),
{
    let ghost was = member_views(members@);
    let mut i: usize = 0;
    while i < members.len() && before(members[i].0.as_str(), key)
        invariant
            i <= members@.len(),
            was == member_views(members@),
            forall|j: int| 0 <= j < i ==> text_less((#[trigger] was[j]).0, key@),
        decreases members@.len() - i,
    {
        assert(was[i as int].0 == members@[i as int].0@);
        i += 1;
    }
    let found = i < members.len() && same(members[i].0.as_str(), key);
    if found {
        members.set(i, (key.to_owned(), value));
    } else {
        members.insert(i, (key.to_owned(), value));
    }
    proof {
        let now = member_views(members@);
        if i < was.len() {
            assert(was[i as int].0 == old(members)@[i as int].0@);
        }
        if found {
            assert(now =~= was.update(i as int, (key@, value@)));
        } else {
            assert(now =~= was.insert(i as int, (key@, value@)));
            if i < was.len() {
                lemma_text_less_total(was[i as int].0, key@);
            }
        }
        lemma_set_keeps_order(was, now, i as int, found, key@, value@);
    }
}

proof fn lemma_set_keeps_order(
    was: Seq<(Seq<char>, JsonView)>,
    now: Seq<(Seq<char>, JsonView)>,
    i: int,
    found: bool,
    key: Seq<char>,
    value: JsonView,
)
    requires
        ordered(was),
        0 <= i <= was.len(),
        forall|j: int| 0 <= j < i ==> text_less((#[trigger] was[j]).0, key),
        found ==> i < was.len() && was[i].0 == key && now == was.update(i, (key, value)),
        !found ==> now == was.insert(i, (key, value)) && (i < was.len() ==> text_less(
            key,
            was[i].0,
        )),
    ensures
        ordered(now),
        members_map(now) == members_map(was).insert(key, value),
{
    let shift: int = if found {
        0
    } else {
        1
    };
    assert forall|a: int, b: int| 0 <= a < b < now.len() implies text_less(
        (#[trigger] now[a]).0,
        (#[trigger] now[b]).0,
    ) by {
        let wa = if a < i {
            a
        } else {
            a - shift
        };
        let wb = if b < i {
            b
        } else {
            b - shift
        };
        if a == i {
            if found {
                assert(text_less(was[i].0, was[b].0));
            } else if b - 1 > i {
                assert(text_less(was[i].0, was[b - 1].0));
                lemma_text_less_transitive(key, was[i].0, was[b - 1].0);
            }
        } else if b == i {
            assert(text_less(was[a].0, key));
        } else {
            assert(now[a] == was[wa]);
            assert(now[b] == was[wb]);
        }
    }
    let left = members_map(now);
    let right = members_map(was).insert(key, value);
    assert forall|k: Seq<char>|
        #![trigger left.dom().contains(k)]
        #![trigger right.dom().contains(k)]
        left.dom().contains(k) == right.dom().contains(k) && (left.dom().contains(k) ==> left[k]
            == right[k]) by {
        lemma_member_at(was, k);
        lemma_member_at(now, k);
        if k == key {
            assert(now[i] == (key, value));
            let m = member_at(now, k)->0;
            if m != i {
                lemma_text_less_total(now[m].0, now[i].0);
                if m < i {
                    assert(text_less(now[m].0, now[i].0));
                } else {
                    assert(text_less(now[i].0, now[m].0));
                }
            }
        } else {
            match member_at(was, k) {
                Some(w) => {
                    let n = if w < i {
                        w
                    } else {
                        w + shift
                    };
                    assert(now[n] == was[w]);
                    let m = member_at(now, k)->0;
                    if m < n {
                        assert(text_less(now[m].0, now[n].0));
                        lemma_text_less_total(now[m].0, now[n].0);
                    }
                },
                None => {
                    if member_at(now, k) is Some {
                        let m = member_at(now, k)->0;
                        if m != i {
                            let w = if m < i {
                                m
                            } else {
                                m - shift
                            };
                            assert(now[m] == was[w]);
                        }
                    }
                },
            }
        }
    }
    assert(left =~= right);
}

/// A copy of members.
pub fn copy_members(members: &Vec<(String, Json)>) -> (list: Vec<(String, Json)>)
    ensures
        member_views(list@) == member_views(members@),
{
    let mut list: Vec<(String, Json)> = Vec::new();
    let mut i: usize = 0;
    while i < members.len()
        invariant
            i <= members@.len(),
            list@.len() == i,
            forall|j: int|
                0 <= j < i ==> (#[trigger] list@[j]).0@ == members@[j].0@ && list@[j].1@
                    == members@[j].1@,
        decreases members@.len() - i,
    {
        let value = members[i].1.copy();
        list.push((members[i].0.clone(), value));
        i += 1;
    }
    assert(member_views(list@) =~= member_views(members@));
    list
}

/// `str::replace` of the NUL character by nothing: every other character stays,
/// in order.
#[verifier::external_body]
fn strip_nul(text: &str) -> (r: String)
    ensures
        r@ == nul_free(text@),
{
    text.replace('\0', "")
}

/// A text without its NUL characters.
pub open spec fn nul_free(text: Seq<char>) -> Seq<char> {
    text.filter(|c: char| c != '\0')
}

/// Members with `key` set to `value`: in its place where it has one, else
/// behind the others.
pub open spec fn with_member(
    members: Seq<(Seq<char>, JsonView)>,
    key: Seq<char>,
    value: JsonView,
) -> Seq<(Seq<char>, JsonView)> {
    match member_at(members, key) {
        Some(i) => members.update(i, (key, value)),
        None => members.push((key, value)),
    }
}

/// The members that a list of pairs makes, set one after the other: of pairs
/// with one key the last counts.
pub open spec fn merged(pairs: Seq<(Seq<char>, JsonView)>) -> Seq<(Seq<char>, JsonView)>
    decreases pairs.len(),
{
    if pairs.len() == 0 {
        pairs
    } else {
        with_member(merged(pairs.drop_last()), pairs.last().0, pairs.last().1)
    }
}

/// A value without the NUL characters of its strings, keys among them. Where
/// two keys of an object become one, the later member counts.
pub open spec fn sanitized(value: JsonView) -> JsonView
    decreases value,
{
    match value {
        JsonView::Str(s) => JsonView::Str(nul_free(s)),
        JsonView::Array(items) => JsonView::Array(
            Seq::new(
                items.len(),
                |i: int|
                    if 0 <= i < items.len() {
                        sanitized(items[i])
                    } else {
                        JsonView::Null
                    },
            ),
        ),
        JsonView::Object(members) => JsonView::Object(merged(sanitized_pairs(members))),
        _ => value,
    }
}

/// Each member of an object without the NUL characters of its strings.
pub open spec fn sanitized_pairs(members: Seq<(Seq<char>, JsonView)>) -> Seq<
    (Seq<char>, JsonView),
>
    decreases members,
{
    Seq::new(
        members.len(),
        |i: int|
            if 0 <= i < members.len() {
                (nul_free(members[i].0), sanitized(members[i].1))
            } else {
                (Seq::empty(), JsonView::Null)
            },
    )
}

/// The members of an object without the NUL characters of their strings.
pub open spec fn sanitized_members(members: Seq<(Seq<char>, JsonView)>) -> Seq<
    (Seq<char>, JsonView),
> {
    merged(sanitized_pairs(members))
}

/// Whether no two members have one key.
pub open spec fn distinct_keys(members: Seq<(Seq<char>, JsonView)>) -> bool {
    forall|i: int, j: int|
        0 <= i < j < members.len() ==> (#[trigger] members[i]).0 != (#[trigger] members[j]).0
}

/// Whether every object in a value holds each of its keys once.
pub open spec fn each_key_once(value: JsonView) -> bool
    decreases value,
{
    match value {
        JsonView::Array(items) => forall|i: int|
            0 <= i < items.len() ==> each_key_once(#[trigger] items[i]),
        JsonView::Object(members) => distinct_keys(members) && forall|i: int|
            0 <= i < members.len() ==> each_key_once((#[trigger] members[i]).1),
        _ => true,
    }
}

/// Merged members are some of the pairs, each key once; pairs without a common
/// key stay as they are.
pub proof fn lemma_merged(pairs: Seq<(Seq<char>, JsonView)>)
    ensures
        distinct_keys(merged(pairs)),
        forall|i: int| 0 <= i < merged(pairs).len() ==> pairs.contains(#[trigger] merged(pairs)[i]),
        distinct_keys(pairs) ==> merged(pairs) == pairs,
        pairs.len() > 0 ==> merged(pairs).len() > 0,
    decreases pairs.len(),
{
    if pairs.len() > 0 {
        let rest = pairs.drop_last();
        let key = pairs.last().0;
        let m = merged(rest);
        let now = merged(pairs);
        lemma_merged(rest);
        lemma_member_at(m, key);
        assert forall|i: int| 0 <= i < now.len() implies pairs.contains(#[trigger] now[i]) by {
            if i < m.len() && now[i] == m[i] {
                assert(rest.contains(m[i]));
                let j = choose|j: int| 0 <= j < rest.len() && rest[j] == m[i];
                assert(pairs[j] == now[i]);
            } else {
                assert(now[i] == pairs[pairs.len() - 1]);
            }
        }
        assert forall|i: int, j: int| 0 <= i < j < now.len() implies (#[trigger] now[i]).0 != (
        #[trigger] now[j]).0 by {
            if j < m.len() {
                assert(m[i].0 != m[j].0);
            }
        }
        if distinct_keys(pairs) {
            assert forall|i: int, j: int| 0 <= i < j < rest.len() implies (#[trigger] rest[i]).0
                != (#[trigger] rest[j]).0 by {
                assert(pairs[i].0 != pairs[j].0);
            }
            if member_at(m, key) is Some {
                let i = member_at(m, key)->0;
                assert(pairs[i].0 != pairs[pairs.len() - 1].0);
            }
            assert(rest.push(pairs.last()) =~= pairs);
        }
    }
}

/// Every key of a list of pairs is kept, with the value of its last pair.
proof fn lemma_merged_value(pairs: Seq<(Seq<char>, JsonView)>, j: int)
    requires
        0 <= j < pairs.len(),
        forall|k: int| j < k < pairs.len() ==> (#[trigger] pairs[k]).0 != pairs[j].0,
    ensures
        member(merged(pairs), pairs[j].0) == Some(pairs[j].1),
    decreases pairs.len(),
{
    let rest = pairs.drop_last();
    let m = merged(rest);
    let now = merged(pairs);
    let key = pairs[j].0;
    lemma_merged(pairs);
    lemma_member_at(m, pairs.last().0);
    lemma_member_at(m, key);
    lemma_member_at(now, key);
    if j < rest.len() {
        assert forall|k: int| j < k < rest.len() implies (#[trigger] rest[k]).0 != rest[j].0 by {
            assert(rest[k] == pairs[k]);
        }
        lemma_merged_value(rest, j);
        let at = member_at(m, key)->0;
        assert(pairs[pairs.len() - 1].0 != key);
        assert(now[at] == m[at]);
        let found = member_at(now, key)->0;
        if found != at {
            assert(now[found].0 == now[at].0);
        }
    } else {
        let at = match member_at(m, key) {
            Some(i) => i,
            None => m.len() as int,
        };
        assert(now[at] == pairs[j]);
        let found = member_at(now, key)->0;
        if found != at {
            assert(now[found].0 == now[at].0);
        }
    }
}

/// What sanitizing does to an array and to an object.
pub proof fn lemma_sanitized(value: JsonView)
    ensures
        value matches JsonView::Array(items) ==> sanitized(value) == JsonView::Array(
            Seq::new(items.len(), |i: int| sanitized(items[i])),
        ),
        value matches JsonView::Object(members) ==> sanitized(value) == JsonView::Object(
            sanitized_members(members),
        ),
{
    reveal_with_fuel(sanitized, 2);
    match value {
        JsonView::Array(items) => {
            assert(sanitized(value)->Array_0 =~= Seq::new(
                items.len(),
                |i: int| sanitized(items[i]),
            ));
        },
        _ => {},
    }
}

/// A copy of a value without the NUL characters of its strings.
pub fn sanitize_nul(value: &Json) -> (r: Json)
    ensures
        r@ == sanitized(value@),
    decreases value,
{
    proof {
        lemma_sanitized(value@);
        lemma_json_view(*value);
    }
    match value {
        Json::Str(s) => Json::Str(strip_nul(s.as_str())),
        Json::Array(items) => {
            let mut list: Vec<Json> = Vec::new();
            let mut i: usize = 0;
            while i < items.len()
                invariant
                    i <= items@.len(),
                    *value == Json::Array(*items),
                    list@.len() == i,
                    forall|j: int|
                        0 <= j < i ==> (#[trigger] list@[j])@ == sanitized(items@[j]@),
                decreases items@.len() - i,
            {
                assert(decreases_to!(value => value->Array_0@[i as int]));
                let item = sanitize_nul(&items[i]);
                list.push(item);
                i += 1;
            }
            let r = Json::Array(list);
            proof {
                lemma_json_view(r);
                let views = json_views(items@);
                assert(json_views(list@) =~= Seq::new(
                    views.len(),
                    |i: int| sanitized(views[i]),
                ));
            }
            r
        },
        Json::Object(members) => {
            let mut list: Vec<(String, Json)> = Vec::new();
            let ghost pairs = sanitized_pairs(member_views(members@));
            let mut i: usize = 0;
            assert(member_views(list@) =~= Seq::<(Seq<char>, JsonView)>::empty());
            assert(pairs.take(0) =~= Seq::<(Seq<char>, JsonView)>::empty());
            while i < members.len()
                invariant
                    i <= members@.len(),
                    *value == Json::Object(*members),
                    pairs == sanitized_pairs(member_views(members@)),
                    member_views(list@) == merged(pairs.take(i as int)),
                decreases members@.len() - i,
            {
                assert(decreases_to!(value => value->Object_0@[i as int].1));
                let item = sanitize_nul(&members[i].1);
                let key = strip_nul(members[i].0.as_str());
                let ghost was = member_views(list@);
                assert(member_views(members@)[i as int] == (
                    members@[i as int].0@,
                    members@[i as int].1@,
                ));
                assert(pairs.take(i + 1).last() == (key@, item@));
                assert(pairs.take(i + 1).drop_last() =~= pairs.take(i as int));
                match find_member(&list, key.as_str()) {
                    Some(at) => {
                        let ghost pair = (key@, item@);
                        list.set(at, (key, item));
                        assert(member_views(list@) =~= was.update(at as int, pair));
                    },
                    None => {
                        let ghost pair = (key@, item@);
                        list.push((key, item));
                        assert(member_views(list@) =~= was.push(pair));
                    },
                }
                i += 1;
            }
            let r = Json::Object(list);
            proof {
                lemma_json_view(r);
                assert(pairs.take(i as int) =~= pairs);
            }
            r
        },
        _ => value.copy(),
    }
}

/// Whether no string of a value, keys among them, holds a NUL character.
pub open spec fn is_nul_free(value: JsonView) -> bool
    decreases value,
{
    match value {
        JsonView::Str(s) => !s.contains('\0'),
        JsonView::Array(items) => forall|i: int|
            0 <= i < items.len() ==> is_nul_free(#[trigger] items[i]),
        JsonView::Object(members) => forall|i: int|
            0 <= i < members.len() ==> !(#[trigger] members[i]).0.contains('\0') && is_nul_free(
                members[i].1,
            ),
        _ => true,
    }
}

/// A text without NUL characters is left as it is.
pub proof fn lemma_nul_free_keeps(text: Seq<char>)
    requires
        !text.contains('\0'),
    ensures
        nul_free(text) == text,
    decreases text.len(),
{
    reveal(Seq::filter);
    if text.len() > 0 {
        let rest = text.drop_last();
        assert forall|i: int| 0 <= i < rest.len() implies rest[i] != '\0' by {
            assert(rest[i] == text[i]);
        }
        lemma_nul_free_keeps(rest);
        assert(text.contains(text[text.len() - 1]));
        assert(rest.push(text.last()) =~= text);
    }
}

proof fn lemma_nul_free_has_none(text: Seq<char>)
    ensures
        !nul_free(text).contains('\0'),
    decreases text.len(),
{
    reveal(Seq::filter);
    if text.len() > 0 {
        let rest = text.drop_last();
        lemma_nul_free_has_none(rest);
        let kept = nul_free(rest);
        if text.last() != '\0' {
            assert forall|i: int| 0 <= i < kept.len() + 1 implies kept.push(text.last())[i]
                != '\0' by {
                if i < kept.len() {
                    assert(kept.contains(kept[i]));
                }
            }
        }
    }
}

/// Sanitizing leaves no NUL character in any string or key, and every object
/// holds each of its keys once.
pub proof fn law_sanitized_is_nul_free(value: JsonView)
    ensures
        is_nul_free(sanitized(value)),
        each_key_once(sanitized(value)),
    decreases value,
{
    lemma_sanitized(value);
    match value {
        JsonView::Str(s) => lemma_nul_free_has_none(s),
        JsonView::Array(items) => {
            let clean = sanitized(value)->Array_0;
            assert forall|i: int| 0 <= i < clean.len() implies is_nul_free(#[trigger] clean[i])
                && each_key_once(clean[i]) by {
                law_sanitized_is_nul_free(items[i]);
            }
        },
        JsonView::Object(members) => {
            let clean = sanitized(value)->Object_0;
            let pairs = sanitized_pairs(members);
            lemma_merged(pairs);
            assert forall|i: int| 0 <= i < clean.len() implies !(#[trigger] clean[i]).0.contains(
                '\0',
            ) && is_nul_free(clean[i].1) && each_key_once(clean[i].1) by {
                assert(pairs.contains(clean[i]));
                let j = choose|j: int| 0 <= j < pairs.len() && pairs[j] == clean[i];
                lemma_nul_free_has_none(members[j].0);
                law_sanitized_is_nul_free(members[j].1);
            }
        },
        _ => {},
    }
}

/// Sanitizing drops no key: each is there without its NUL characters, with the
/// value of the last member that has it.
pub proof fn law_sanitized_keeps_every_key(members: Seq<(Seq<char>, JsonView)>, j: int)
    requires
        0 <= j < members.len(),
        forall|k: int|
            j < k < members.len() ==> nul_free((#[trigger] members[k]).0) != nul_free(members[j].0),
    ensures
        member(sanitized_members(members), nul_free(members[j].0)) == Some(
            sanitized(members[j].1),
        ),
{
    let pairs = sanitized_pairs(members);
    assert forall|k: int| j < k < pairs.len() implies (#[trigger] pairs[k]).0 != pairs[j].0 by {
        assert(nul_free(members[k].0) != nul_free(members[j].0));
    }
    lemma_merged_value(pairs, j);
}

/// A value without NUL characters is left as it is; so sanitizing twice is
/// sanitizing once.
pub proof fn law_sanitize_keeps_clean_values(value: JsonView)
    requires
        is_nul_free(value),
        each_key_once(value),
    ensures
        sanitized(value) == value,
    decreases value,
{
    lemma_sanitized(value);
    match value {
        JsonView::Str(s) => lemma_nul_free_keeps(s),
        JsonView::Array(items) => {
            let clean = sanitized(value)->Array_0;
            assert forall|i: int| 0 <= i < items.len() implies clean[i] == items[i] by {
                law_sanitize_keeps_clean_values(items[i]);
            }
            assert(clean =~= items);
        },
        JsonView::Object(members) => {
            let pairs = sanitized_pairs(members);
            assert forall|i: int| 0 <= i < members.len() implies pairs[i] == members[i] by {
                assert(!members[i].0.contains('\0'));
                lemma_nul_free_keeps(members[i].0);
                law_sanitize_keeps_clean_values(members[i].1);
            }
            assert(pairs =~= members);
            lemma_merged(pairs);
        },
        _ => {},
    }
}

/// A value whose objects hold each key once equals itself.
pub proof fn law_equality_is_reflexive(value: JsonView)
    requires
        each_key_once(value),
    ensures
        same_value(value, value),
    decreases value,
{
    match value {
        JsonView::Array(items) => {
            assert forall|i: int| 0 <= i < items.len() implies same_value(
                #[trigger] items[i],
                items[i],
            ) by {
                law_equality_is_reflexive(items[i]);
            }
        },
        JsonView::Object(members) => {
            assert forall|i: int| 0 <= i < members.len() implies (match member_at(
                members,
                (#[trigger] members[i]).0,
            ) {
                Some(j) => same_value(members[i].1, members[j].1),
                None => false,
            }) by {
                lemma_member_at(members, members[i].0);
                let j = member_at(members, members[i].0)->0;
                if j < i {
                    assert(members[j].0 != members[i].0);
                }
                law_equality_is_reflexive(members[i].1);
            }
        },
        _ => {},
    }
}

/// Equality does not depend on the order of its two sides, for values whose
/// objects hold each key once.
pub proof fn law_equality_is_symmetric(a: JsonView, b: JsonView)
    requires
        each_key_once(a),
        each_key_once(b),
    ensures
        same_value(a, b) == same_value(b, a),
{
    if same_value(a, b) {
        lemma_equality_turns(a, b);
    }
    if same_value(b, a) {
        lemma_equality_turns(b, a);
    }
}

proof fn lemma_equality_turns(a: JsonView, b: JsonView)
    requires
        each_key_once(a),
        each_key_once(b),
        same_value(a, b),
    ensures
        same_value(b, a),
    decreases a,
{
    match (a, b) {
        (JsonView::Array(x), JsonView::Array(y)) => {
            assert forall|i: int| 0 <= i < y.len() implies same_value(#[trigger] y[i], x[i]) by {
                assert(same_value(x[i], y[i]));
                lemma_equality_turns(x[i], y[i]);
            }
        },
        (JsonView::Object(x), JsonView::Object(y)) => {
            assert forall|j: int| 0 <= j < y.len() implies (match member_at(
                x,
                (#[trigger] y[j]).0,
            ) {
                Some(i) => same_value(y[j].1, x[i].1),
                None => false,
            }) by {
                lemma_member_at(x, y[j].0);
                let i = member_at(x, y[j].0)->0;
                assert(x[i].0 == y[j].0);
                lemma_member_at(y, x[i].0);
                let k = member_at(y, x[i].0)->0;
                if k < j {
                    assert(y[k].0 != y[j].0);
                }
                lemma_equality_turns(x[i].1, y[j].1);
            }
            assert forall|i: int| 0 <= i < x.len() implies member_at(y, (#[trigger] x[i]).0)
                is Some by {}
        },
        _ => {},
    }
}

impl Json {
    /// Whether two values are equal.
    pub fn equals(&self, other: &Json) -> (equal: bool)
        ensures
            equal == same_value(self@, other@),
        decreases self,
    {
        proof {
            lemma_json_view(*self);
            lemma_json_view(*other);
        }
        match (self, other) {
            (Json::Null, Json::Null) => true,
            (Json::Bool(a), Json::Bool(b)) => *a == *b,
            (Json::Number(a), Json::Number(b)) => numbers_equal(*a, *b),
            (Json::Str(a), Json::Str(b)) => same(a.as_str(), b.as_str()),
            (Json::Array(a), Json::Array(b)) => {
                if a.len() != b.len() {
                    return false;
                }
                let mut i: usize = 0;
                while i < a.len()
                    invariant
                        i <= a@.len(),
                        a@.len() == b@.len(),
                        *self == Json::Array(*a),
                        self@ == JsonView::Array(json_views(a@)),
                        other@ == JsonView::Array(json_views(b@)),
                        forall|j: int|
                            0 <= j < i ==> same_value(
                                #[trigger] json_views(a@)[j],
                                json_views(b@)[j],
                            ),
                    decreases a@.len() - i,
                {
                    assert(decreases_to!(self => self->Array_0@[i as int]));
                    assert(json_views(a@)[i as int] == a@[i as int]@);
                    if !a[i].equals(&b[i]) {
                        return false;
                    }
                    i += 1;
                }
                true
            },
            (Json::Object(a), Json::Object(b)) => {
                let ghost x = member_views(a@);
                let ghost y = member_views(b@);
                let mut i: usize = 0;
                while i < a.len()
                    invariant
                        i <= a@.len(),
                        *self == Json::Object(*a),
                        x == member_views(a@),
                        y == member_views(b@),
                        self@ == JsonView::Object(x),
                        other@ == JsonView::Object(y),
                        forall|j: int|
                            0 <= j < i ==> match member_at(y, (#[trigger] x[j]).0) {
                                Some(k) => same_value(x[j].1, y[k].1),
                                None => false,
                            },
                    decreases a@.len() - i,
                {
                    assert(decreases_to!(self => self->Object_0@[i as int].1));
                    assert(x[i as int] == (a@[i as int].0@, a@[i as int].1@));
                    match find_member(b, a[i].0.as_str()) {
                        Some(k) => {
                            assert(y[k as int].1 == b@[k as int].1@);
                            if !a[i].1.equals(&b[k].1) {
                                return false;
                            }
                        },
                        None => {
                            return false;
                        },
                    }
                    i += 1;
                }
                let mut j: usize = 0;
                while j < b.len()
                    invariant
                        j <= b@.len(),
                        x == member_views(a@),
                        y == member_views(b@),
                        self@ == JsonView::Object(x),
                        other@ == JsonView::Object(y),
                        forall|k: int| 0 <= k < j ==> member_at(x, (#[trigger] y[k]).0) is Some,
                    decreases b@.len() - j,
                {
                    assert(y[j as int].0 == b@[j as int].0@);
                    if find_member(a, b[j].0.as_str()).is_none() {
                        return false;
                    }
                    j += 1;
                }
                true
            },
            _ => false,
        }
    }

    /// The value of a member, where the value is an object that has it.
    pub fn get(&self, key: &str) -> (value: Option<&Json>)
        ensures
            match value {
                Some(value) => self@ matches JsonView::Object(members) && member(members, key@)
                    == Some(value@),
                None => self@ matches JsonView::Object(members) ==> member(members, key@) is None,
            },
    {
        proof {
            lemma_json_view(*self);
        }
        match self {
            Json::Object(members) => match find_member(members, key) {
                Some(i) => {
                    proof {
                        lemma_member_at(member_views(members@), key@);
                    }
                    Some(&members[i].1)
                },
                None => None,
            },
            _ => None,
        }
    }
}

/// Whether two numbers are equal.
fn numbers_equal(a: Number, b: Number) -> (equal: bool)
    ensures
        equal == same_number(a, b),
{
    match (a, b) {
        (Number::Float(x), Number::Float(y)) => x == y || ((x == 0 || x == 0x8000_0000_0000_0000)
            && (y == 0 || y == 0x8000_0000_0000_0000)),
        _ => a == b,
    }
}

/// Sanitizing takes the NUL characters out of texts and changes nothing else:
/// a text loses exactly those, the items of an array are sanitized each in its
/// place, and every other value stays as it is. An object stays one, and each
/// of its members is one of before, sanitized.
pub proof fn law_sanitizing_strips_only_nul(value: &Json, r: Json)
    requires
        call_ensures(sanitize_nul, (value,), r),
    ensures
        match value@ {
            JsonView::Str(s) => r@ == JsonView::Str(s.filter(|c: char| c != '\0')),
            JsonView::Array(items) => r@ matches JsonView::Array(clean) && clean.len()
                == items.len() && forall|i: int|
                0 <= i < items.len() ==> #[trigger] clean[i] == sanitized(items[i]),
            JsonView::Object(members) => r@ matches JsonView::Object(clean) && forall|i: int|
                0 <= i < clean.len() ==> is_clean_member(members, #[trigger] clean[i]),
            other => r@ == other,
        },
{
    lemma_sanitized(value@);
    if let JsonView::Object(members) = value@ {
        let clean = r@->Object_0;
        let pairs = sanitized_pairs(members);
        lemma_merged(pairs);
        assert forall|i: int| 0 <= i < clean.len() implies is_clean_member(
            members,
            #[trigger] clean[i],
        ) by {
            assert(pairs.contains(clean[i]));
            let j = choose|j: int| 0 <= j < pairs.len() && pairs[j] == clean[i];
            assert(members[j].0.filter(|c: char| c != '\0') == clean[i].0);
        }
    }
}

/// Whether a member is one of a list, without NUL characters.
pub open spec fn is_clean_member(
    members: Seq<(Seq<char>, JsonView)>,
    clean: (Seq<char>, JsonView),
) -> bool {
    exists|j: int|
        0 <= j < members.len() && clean.0 == (#[trigger] members[j]).0.filter(|c: char| c != '\0')
            && clean.1 == sanitized(members[j].1)
}

/// Equality is by value: values of different kinds differ, plain ones are equal
/// exactly where they are the same, numbers exactly where they are of one form
/// and value (the two zeros of a double are one), and arrays exactly where
/// they are item by item.
pub proof fn law_equality_is_by_value(a: &Json, b: &Json, equal: bool)
    requires
        call_ensures(Json::equals, (a, b), equal),
    ensures
        match (a@, b@) {
            (JsonView::Null, JsonView::Null) => equal,
            (JsonView::Bool(x), JsonView::Bool(y)) => equal <==> x == y,
            (JsonView::Str(x), JsonView::Str(y)) => equal <==> x == y,
            (JsonView::Number(x), JsonView::Number(y)) => equal <==> x == y || (x matches Number::Float(
                p,
            ) && y matches Number::Float(q) && (p == 0 || p == 0x8000_0000_0000_0000) && (q == 0
                || q == 0x8000_0000_0000_0000)),
            (JsonView::Array(x), JsonView::Array(y)) => equal <==> x.len() == y.len() && forall|
                i: int,
            |
                0 <= i < x.len() ==> same_value(#[trigger] x[i], y[i]),
            (JsonView::Object(_), JsonView::Object(_)) => true,
            _ => !equal,
        },
{
}

/// Equal objects have the same keys, with equal values: of each member of
/// either there is one of the same key in the other.
pub proof fn law_equal_objects_agree(
    a: &Json,
    b: &Json,
    x: Seq<(Seq<char>, JsonView)>,
    y: Seq<(Seq<char>, JsonView)>,
    i: int,
    j: int,
)
    requires
        call_ensures(Json::equals, (a, b), true),
        a@ == JsonView::Object(x),
        b@ == JsonView::Object(y),
        0 <= i < x.len(),
        0 <= j < y.len(),
    ensures
        exists|k: int| 0 <= k < y.len() && (#[trigger] y[k]).0 == x[i].0 && same_value(
            x[i].1,
            y[k].1,
        ),
        exists|k: int| 0 <= k < x.len() && (#[trigger] x[k]).0 == y[j].0,
{
    lemma_member_at(y, x[i].0);
    lemma_member_at(x, y[j].0);
    let k = member_at(y, x[i].0)->0;
    assert(y[k].0 == x[i].0);
    let m = member_at(x, y[j].0)->0;
    assert(x[m].0 == y[j].0);
}

/// Objects that hold each key once, of the same keys with equal values, are
/// equal, whatever the order of their members.
pub proof fn law_agreeing_objects_are_equal(
    a: &Json,
    b: &Json,
    x: Seq<(Seq<char>, JsonView)>,
    y: Seq<(Seq<char>, JsonView)>,
    to: spec_fn(int) -> int,
    from: spec_fn(int) -> int,
    equal: bool,
)
    requires
        call_ensures(Json::equals, (a, b), equal),
        a@ == JsonView::Object(x),
        b@ == JsonView::Object(y),
        distinct_keys(y),
        forall|i: int|
            0 <= i < x.len() ==> 0 <= #[trigger] to(i) < y.len() && y[to(i)].0 == x[i].0
                && same_value(x[i].1, y[to(i)].1),
        forall|j: int|
            0 <= j < y.len() ==> 0 <= #[trigger] from(j) < x.len() && x[from(j)].0 == y[j].0,
    ensures
        equal,
{
    assert forall|i: int| 0 <= i < x.len() implies (match member_at(y, (#[trigger] x[i]).0) {
        Some(j) => same_value(x[i].1, y[j].1),
        None => false,
    }) by {
        lemma_member_at(y, x[i].0);
        let j = to(i);
        let k = member_at(y, x[i].0)->0;
        if k < j {
            assert(y[k].0 != y[j].0);
        }
        if j < k {
            assert(y[j].0 != y[k].0);
        }
    }
    assert forall|j: int| 0 <= j < y.len() implies member_at(x, (#[trigger] y[j]).0) is Some by {
        lemma_member_at(x, y[j].0);
        let i = from(j);
        assert(x[i].0 == y[j].0);
    }
}

/// A copy is what it was copied from.
pub proof fn law_copies_are_equal(value: &Json, r: Json)
    requires
        call_ensures(Json::copy, (value,), r),
    ensures
        r@ == value@,
{
}

} // verus!
