//! What is asked of the log: appends, their conflicts, and where two versions
//! of one event differ.

use vstd::prelude::*;

use crate::ids::{id_chars, id_text};
use crate::json::{
    each_key_once, find_member, json_views, law_equality_is_reflexive, law_equality_is_symmetric,
    lemma_json_view, member_at, member_views, same_value, Json, JsonView,
};
use crate::text::{decimal, decimal_chars};
use crate::types::{
    event_views, EventData, EventView, RecordedEvent, StreamRevision, StreamState,
};

verus! {

/// One atomic append: all events land at consecutive revisions of the stream
/// `{category}-{subject_id}`, or none does.
#[derive(Debug)]
pub struct AppendRequest {
    pub category: String,
    pub subject_id: u128,
    pub expected: StreamState,
    pub events: Vec<EventData>,
}

/// An append, as mathematics.
pub struct RequestView {
    pub category: Seq<char>,
    pub subject_id: u128,
    pub expected: StreamState,
    pub events: Seq<EventView>,
}

impl View for AppendRequest {
    type V = RequestView;

    open spec fn view(&self) -> RequestView {
        RequestView {
            category: self.category@,
            subject_id: self.subject_id,
            expected: self.expected,
            events: event_views(self.events@),
        }
    }
}

/// The appends of a list.
pub open spec fn request_views(requests: Seq<AppendRequest>) -> Seq<RequestView> {
    Seq::new(requests.len(), |i: int| requests[i]@)
}

/// The stream was not in the expected state.
#[derive(Debug)]
pub struct ConflictError {
    pub expected: StreamState,
    pub current: Option<StreamRevision>,
}

/// A redelivered event differs from the stored one of the same id. The stored
/// row is kept.
#[derive(Debug)]
pub struct DivergentRedelivery {
    pub event_id: u128,
    /// Where the two differ.
    pub diff: String,
    /// The stored row, where the backend can supply it.
    pub canonical: Option<Box<RecordedEvent>>,
}

impl DivergentRedelivery {
    /// What the error says.
    pub open spec fn message(&self) -> Seq<char> {
        "append_to_stream: divergent redelivery for event_id "@ + id_chars(self.event_id)
            + " — the persisted row differs from this batch's event ("@ + self.diff@
            + "). A dedup-hit must be byte-identical; a differing re-emission means the producer is nondeterministic under redelivery (wall clock, rand, or an external call not under ctx.effect). The persisted row is kept unchanged."@
    }

    pub fn to_text(&self) -> (text: String)
        ensures
            text@ == self.message(),
    {
        let mut text = "append_to_stream: divergent redelivery for event_id ".to_owned();
        text.append(id_text(self.event_id).as_str());
        text.append(" — the persisted row differs from this batch's event (");
        text.append(self.diff.as_str());
        text.append(
            "). A dedup-hit must be byte-identical; a differing re-emission means the producer is nondeterministic under redelivery (wall clock, rand, or an external call not under ctx.effect). The persisted row is kept unchanged.",
        );
        text
    }
}

/// What stands before the first colon of a text; the whole text where it has
/// none.
pub open spec fn before_colon(text: Seq<char>) -> Seq<char>
    decreases text.len(),
{
    if text.len() == 0 || text[0] == ':' {
        Seq::empty()
    } else {
        seq![text[0]] + before_colon(text.drop_first())
    }
}

/// The category an event is placed under: its own where it carries one that is
/// not empty, else the prefix of its type, else `event`.
pub open spec fn placement_category(category: Option<Seq<char>>, event_type: Seq<char>) -> Seq<
    char,
> {
    match category {
        Some(c) if c.len() > 0 => c,
        _ => if before_colon(event_type).len() > 0 {
            before_colon(event_type)
        } else {
            "event"@
        },
    }
}

/// The view of an optional text.
pub open spec fn opt_text(text: Option<String>) -> Option<Seq<char>> {
    match text {
        Some(t) => Some(t@),
        None => None,
    }
}

/// An append of one event to its own stream, without an expectation. An event
/// that carries no subject id makes a stream of its own.
pub fn append_event(event: EventData) -> (request: AppendRequest)
    ensures
        request.category@ == placement_category(opt_text(event.category), event.event_type@),
        request.subject_id == (match event.subject_id {
            Some(id) => id,
            None => event.event_id,
        }),
        request.expected == StreamState::Any,
        request.events@ == seq![event],
{
    let category: String = match &event.category {
        Some(c) => if c.as_str().is_empty() {
            derived_category(event.event_type.as_str())
        } else {
            c.clone()
        },
        None => derived_category(event.event_type.as_str()),
    };
    let subject_id: u128 = match event.subject_id {
        Some(id) => id,
        None => event.event_id,
    };
    let mut events: Vec<EventData> = Vec::new();
    events.push(event);
    AppendRequest { category, subject_id, expected: StreamState::Any, events }
}

/// The category of an event that carries none.
fn derived_category(event_type: &str) -> (category: String)
    ensures
        category@ == placement_category(None, event_type@),
{
    let len = event_type.unicode_len();
    let mut end: usize = 0;
    while end < len && event_type.get_char(end) != ':'
        invariant
            len == event_type@.len(),
            end <= len,
            forall|i: int| 0 <= i < end ==> #[trigger] event_type@[i] != ':',
        decreases len - end,
    {
        end += 1;
    }
    proof {
        lemma_before_colon(event_type@, end as int);
    }
    if end == 0 {
        "event".to_owned()
    } else {
        event_type.substring_char(0, end).to_owned()
    }
}

/// The prefix of a text ends at its first colon.
proof fn lemma_before_colon(text: Seq<char>, end: int)
    requires
        0 <= end <= text.len(),
        forall|i: int| 0 <= i < end ==> #[trigger] text[i] != ':',
        end < text.len() ==> text[end] == ':',
    ensures
        before_colon(text) == text.take(end),
    decreases text.len(),
{
    if end > 0 {
        let rest = text.drop_first();
        assert forall|i: int| 0 <= i < end - 1 implies #[trigger] rest[i] != ':' by {
            assert(rest[i] == text[i + 1]);
        }
        lemma_before_colon(rest, end - 1);
        assert(seq![text[0]] + rest.take(end - 1) =~= text.take(end));
    } else {
        assert(text.take(0) =~= Seq::<char>::empty());
    }
}

/// A path extended by an object key.
pub open spec fn at_key(path: Seq<char>, key: Seq<char>) -> Seq<char> {
    if path.len() == 0 {
        key
    } else {
        path + "."@ + key
    }
}

/// A path extended by an array index.
pub open spec fn at_index(path: Seq<char>, i: nat) -> Seq<char> {
    path + "["@ + decimal_chars(i) + "]"@
}

/// The lesser of two lengths.
pub open spec fn shorter(a: nat, b: nat) -> nat {
    if a < b {
        a
    } else {
        b
    }
}

/// The path of the first difference below `path`. Objects are walked along the
/// keys of `a` and then those that only `b` has; arrays along their common
/// length, then to the first index that only one of them has.
pub open spec fn diff_below(a: JsonView, b: JsonView, path: Seq<char>) -> Option<Seq<char>>
    decreases a, 1nat, 0nat,
{
    match (a, b) {
        (JsonView::Object(x), JsonView::Object(y)) => match diff_members(a, b, path, x.len()) {
            Some(p) => Some(p),
            None => diff_extra(x, y, path, y.len()),
        },
        (JsonView::Array(x), JsonView::Array(y)) => match diff_items(
            a,
            b,
            path,
            shorter(x.len(), y.len()),
        ) {
            Some(p) => Some(p),
            None => if x.len() != y.len() {
                Some(at_index(path, shorter(x.len(), y.len())))
            } else {
                None
            },
        },
        _ => if same_value(a, b) {
            None
        } else {
            Some(path)
        },
    }
}

/// The first difference among the first `n` members of `a`.
pub open spec fn diff_members(a: JsonView, b: JsonView, path: Seq<char>, n: nat) -> Option<Seq<char>>
    decreases a, 0nat, n,
{
    if n == 0 {
        None
    } else {
        match diff_members(a, b, path, (n - 1) as nat) {
            Some(p) => Some(p),
            None => match (a, b) {
                (JsonView::Object(x), JsonView::Object(y)) => if n <= x.len() {
                    match member_at(y, x[n - 1].0) {
                        Some(j) => diff_below(x[n - 1].1, y[j].1, at_key(path, x[n - 1].0)),
                        None => Some(at_key(path, x[n - 1].0)),
                    }
                } else {
                    None
                },
                _ => None,
            },
        }
    }
}

/// The first of the first `n` keys of `y` that `x` lacks.
pub open spec fn diff_extra(
    x: Seq<(Seq<char>, JsonView)>,
    y: Seq<(Seq<char>, JsonView)>,
    path: Seq<char>,
    n: nat,
) -> Option<Seq<char>>
    decreases n,
{
    if n == 0 {
        None
    } else {
        match diff_extra(x, y, path, (n - 1) as nat) {
            Some(p) => Some(p),
            None => if member_at(x, y[n - 1].0) is None {
                Some(at_key(path, y[n - 1].0))
            } else {
                None
            },
        }
    }
}

/// The first difference among the first `n` items of two arrays.
pub open spec fn diff_items(a: JsonView, b: JsonView, path: Seq<char>, n: nat) -> Option<Seq<char>>
    decreases a, 0nat, n,
{
    if n == 0 {
        None
    } else {
        match diff_items(a, b, path, (n - 1) as nat) {
            Some(p) => Some(p),
            None => match (a, b) {
                (JsonView::Array(x), JsonView::Array(y)) => if n <= x.len() && n <= y.len() {
                    diff_below(x[n - 1], y[n - 1], at_index(path, (n - 1) as nat))
                } else {
                    None
                },
                _ => None,
            },
        }
    }
}

/// The path of the first difference between two values; `None` where they are
/// equal.
pub open spec fn first_diff(a: JsonView, b: JsonView) -> Option<Seq<char>> {
    match diff_below(a, b, Seq::empty()) {
        Some(p) => Some(
            if p.len() == 0 {
                "(root)"@
            } else {
                p
            },
        ),
        None => None,
    }
}

/// The path of the first difference between two values, such as
/// `outputs[2].candidates[0].signal_id`.
pub fn first_diff_path(a: &Json, b: &Json) -> (path: Option<String>)
    ensures
        opt_text(path) == first_diff(a@, b@),
{
    proof {
        reveal_strlit("");
        assert(""@ =~= Seq::<char>::empty());
    }
    match walk(a, b, "") {
        Some(p) => if p.as_str().is_empty() {
            Some("(root)".to_owned())
        } else {
            Some(p)
        },
        None => None,
    }
}

fn key_path(path: &str, key: &str) -> (r: String)
    ensures
        r@ == at_key(path@, key@),
{
    if path.is_empty() {
        key.to_owned()
    } else {
        let mut r = path.to_owned();
        r.append(".");
        r.append(key);
        r
    }
}

fn index_path(path: &str, i: usize) -> (r: String)
    ensures
        r@ == at_index(path@, i as nat),
{
    let mut r = path.to_owned();
    r.append("[");
    r.append(decimal(i as u64).as_str());
    r.append("]");
    r
}

fn walk(a: &Json, b: &Json, path: &str) -> (r: Option<String>)
    ensures
        opt_text(r) == diff_below(a@, b@, path@),
    decreases a,
{
    proof {
        lemma_json_view(*a);
        lemma_json_view(*b);
    }
    match (a, b) {
        (Json::Object(ma), Json::Object(mb)) => {
            let ghost x = member_views(ma@);
            let ghost y = member_views(mb@);
            let mut i: usize = 0;
            while i < ma.len()
                invariant
                    i <= ma@.len(),
                    *a == Json::Object(*ma),
                    x == member_views(ma@),
                    y == member_views(mb@),
                    a@ == JsonView::Object(x),
                    b@ == JsonView::Object(y),
                    diff_members(a@, b@, path@, i as nat) is None,
                decreases ma@.len() - i,
            {
                assert(decreases_to!(a => a->Object_0@[i as int].1));
                assert(x[i as int] == (ma@[i as int].0@, ma@[i as int].1@));
                let below = key_path(path, ma[i].0.as_str());
                proof {
                    lemma_diff_members_sticks(a@, b@, path@, (i + 1) as nat, x.len());
                }
                match find_member(mb, ma[i].0.as_str()) {
                    Some(j) => {
                        assert(y[j as int].1 == mb@[j as int].1@);
                        let found = walk(&ma[i].1, &mb[j].1, below.as_str());
                        if found.is_some() {
                            return found;
                        }
                    },
                    None => {
                        return Some(below);
                    },
                }
                i += 1;
            }
            let mut j: usize = 0;
            while j < mb.len()
                invariant
                    j <= mb@.len(),
                    x == member_views(ma@),
                    y == member_views(mb@),
                    a@ == JsonView::Object(x),
                    b@ == JsonView::Object(y),
                    diff_members(a@, b@, path@, x.len()) is None,
                    diff_extra(x, y, path@, j as nat) is None,
                decreases mb@.len() - j,
            {
                assert(y[j as int].0 == mb@[j as int].0@);
                proof {
                    lemma_diff_extra_sticks(x, y, path@, (j + 1) as nat, y.len());
                }
                if find_member(ma, mb[j].0.as_str()).is_none() {
                    return Some(key_path(path, mb[j].0.as_str()));
                }
                j += 1;
            }
            None
        },
        (Json::Array(va), Json::Array(vb)) => {
            let ghost x = json_views(va@);
            let ghost y = json_views(vb@);
            let n: usize = if va.len() < vb.len() {
                va.len()
            } else {
                vb.len()
            };
            let mut i: usize = 0;
            while i < n
                invariant
                    i <= n,
                    n == shorter(va@.len(), vb@.len()),
                    *a == Json::Array(*va),
                    x == json_views(va@),
                    y == json_views(vb@),
                    a@ == JsonView::Array(x),
                    b@ == JsonView::Array(y),
                    diff_items(a@, b@, path@, i as nat) is None,
                decreases n - i,
            {
                assert(decreases_to!(a => a->Array_0@[i as int]));
                assert(x[i as int] == va@[i as int]@);
                assert(y[i as int] == vb@[i as int]@);
                proof {
                    lemma_diff_items_sticks(a@, b@, path@, (i + 1) as nat, n as nat);
                }
                let below = index_path(path, i);
                let found = walk(&va[i], &vb[i], below.as_str());
                if found.is_some() {
                    return found;
                }
                i += 1;
            }
            if va.len() != vb.len() {
                Some(index_path(path, n))
            } else {
                None
            }
        },
        _ => if a.equals(b) {
            None
        } else {
            Some(path.to_owned())
        },
    }
}

proof fn lemma_diff_members_sticks(a: JsonView, b: JsonView, path: Seq<char>, m: nat, n: nat)
    requires
        m <= n,
    ensures
        diff_members(a, b, path, m) is Some ==> diff_members(a, b, path, n) == diff_members(
            a,
            b,
            path,
            m,
        ),
    decreases n,
{
    if m < n {
        lemma_diff_members_sticks(a, b, path, m, (n - 1) as nat);
    }
}

proof fn lemma_diff_extra_sticks(
    x: Seq<(Seq<char>, JsonView)>,
    y: Seq<(Seq<char>, JsonView)>,
    path: Seq<char>,
    m: nat,
    n: nat,
)
    requires
        m <= n,
    ensures
        diff_extra(x, y, path, m) is Some ==> diff_extra(x, y, path, n) == diff_extra(
            x,
            y,
            path,
            m,
        ),
    decreases n,
{
    if m < n {
        lemma_diff_extra_sticks(x, y, path, m, (n - 1) as nat);
    }
}

proof fn lemma_diff_items_sticks(a: JsonView, b: JsonView, path: Seq<char>, m: nat, n: nat)
    requires
        m <= n,
    ensures
        diff_items(a, b, path, m) is Some ==> diff_items(a, b, path, n) == diff_items(
            a,
            b,
            path,
            m,
        ),
    decreases n,
{
    if m < n {
        lemma_diff_items_sticks(a, b, path, m, (n - 1) as nat);
    }
}

/// No difference is found exactly between equal values.
pub proof fn law_no_diff_means_equal(a: JsonView, b: JsonView)
    ensures
        first_diff(a, b) is None <==> same_value(a, b),
{
    lemma_no_diff_below(a, b, Seq::empty());
}

/// A value does not differ from itself, and which of two values comes first
/// does not decide whether they differ; their objects hold each key once.
pub proof fn law_difference_is_symmetric(a: JsonView, b: JsonView)
    requires
        each_key_once(a),
        each_key_once(b),
    ensures
        first_diff(a, a) is None,
        first_diff(a, b) is None <==> first_diff(b, a) is None,
{
    law_no_diff_means_equal(a, a);
    law_no_diff_means_equal(a, b);
    law_no_diff_means_equal(b, a);
    law_equality_is_reflexive(a);
    law_equality_is_symmetric(a, b);
}

proof fn lemma_no_diff_below(a: JsonView, b: JsonView, path: Seq<char>)
    ensures
        diff_below(a, b, path) is None <==> same_value(a, b),
    decreases a, 1nat, 0nat,
{
    match (a, b) {
        (JsonView::Object(x), JsonView::Object(y)) => {
            lemma_no_diff_members(a, b, path, x.len());
            lemma_no_diff_extra(x, y, path, y.len());
        },
        (JsonView::Array(x), JsonView::Array(y)) => {
            lemma_no_diff_items(a, b, path, shorter(x.len(), y.len()));
        },
        _ => {},
    }
}

proof fn lemma_no_diff_members(a: JsonView, b: JsonView, path: Seq<char>, n: nat)
    requires
        a is Object,
        b is Object,
        n <= a->Object_0.len(),
    ensures
        diff_members(a, b, path, n) is None <==> forall|i: int|
            0 <= i < n ==> match member_at(b->Object_0, (#[trigger] a->Object_0[i]).0) {
                Some(j) => same_value(a->Object_0[i].1, b->Object_0[j].1),
                None => false,
            },
    decreases a, 0nat, n,
{
    if n > 0 {
        let x = a->Object_0;
        let y = b->Object_0;
        lemma_no_diff_members(a, b, path, (n - 1) as nat);
        match member_at(y, x[n - 1].0) {
            Some(j) => {
                lemma_no_diff_below(x[n - 1].1, y[j].1, at_key(path, x[n - 1].0));
            },
            None => {},
        }
        assert(a->Object_0[n - 1] == x[n - 1]);
    }
}

proof fn lemma_no_diff_extra(
    x: Seq<(Seq<char>, JsonView)>,
    y: Seq<(Seq<char>, JsonView)>,
    path: Seq<char>,
    n: nat,
)
    requires
        n <= y.len(),
    ensures
        diff_extra(x, y, path, n) is None <==> forall|j: int|
            0 <= j < n ==> member_at(x, (#[trigger] y[j]).0) is Some,
    decreases n,
{
    if n > 0 {
        lemma_no_diff_extra(x, y, path, (n - 1) as nat);
        assert(y[n - 1] == y[n - 1]);
    }
}

proof fn lemma_no_diff_items(a: JsonView, b: JsonView, path: Seq<char>, n: nat)
    requires
        a is Array,
        b is Array,
        n <= a->Array_0.len(),
        n <= b->Array_0.len(),
    ensures
        diff_items(a, b, path, n) is None <==> forall|i: int|
            0 <= i < n ==> same_value(#[trigger] a->Array_0[i], b->Array_0[i]),
    decreases a, 0nat, n,
{
    if n > 0 {
        let x = a->Array_0;
        let y = b->Array_0;
        lemma_no_diff_items(a, b, path, (n - 1) as nat);
        lemma_no_diff_below(x[n - 1], y[n - 1], at_index(path, (n - 1) as nat));
        assert(a->Array_0[n - 1] == x[n - 1]);
    }
}

/// A single event goes to the stream of its own category and subject, without
/// expectation and unchanged. One without a category goes by the part of its
/// type before the first colon, or by `event` where that is empty; one without
/// a subject makes a stream of its own.
pub proof fn law_events_go_to_their_stream(event: EventData, request: AppendRequest, end: int)
    requires
        call_ensures(append_event, (event,), request),
        0 <= end <= event.event_type@.len(),
        forall|i: int| 0 <= i < end ==> #[trigger] event.event_type@[i] != ':',
        end < event.event_type@.len() ==> event.event_type@[end] == ':',
    ensures
        request.events@.len() == 1,
        request.events@[0] == event,
        request.expected is Any,
        event.subject_id matches Some(id) ==> request.subject_id == id,
        event.subject_id is None ==> request.subject_id == event.event_id,
        event.category matches Some(c) && c@.len() > 0 ==> (event.category matches Some(c)
            && request.category@ == c@),
        (event.category is None || (event.category matches Some(c) && c@.len() == 0)) && end > 0
            ==> request.category@ == event.event_type@.take(end),
        (event.category is None || (event.category matches Some(c) && c@.len() == 0)) && end == 0
            ==> request.category@ == "event"@,
{
    lemma_before_colon(event.event_type@, end);
}

/// Where two values differ: values that are not both objects or both arrays
/// differ as a whole, at their own path, unless they are equal.
pub proof fn law_plain_values_differ_as_a_whole(a: JsonView, b: JsonView, path: Seq<char>)
    requires
        !(a is Object && b is Object),
        !(a is Array && b is Array),
    ensures
        same_value(a, b) ==> diff_below(a, b, path) is None,
        !same_value(a, b) ==> diff_below(a, b, path) == Some(path),
{
}

/// Where two objects differ: at the first member of the one that the other
/// lacks or in which they differ, below its key behind a dot; else at the
/// first key that only the other has.
pub proof fn law_objects_differ_at_their_first_key(
    x: Seq<(Seq<char>, JsonView)>,
    y: Seq<(Seq<char>, JsonView)>,
    path: Seq<char>,
    i: int,
)
    requires
        0 <= i < x.len(),
        forall|k: int|
            0 <= k < i ==> (member_at(y, (#[trigger] x[k]).0) matches Some(j) && same_value(
                x[k].1,
                y[j].1,
            )),
        !(member_at(y, x[i].0) matches Some(j) && same_value(x[i].1, y[j].1)),
    ensures
        ({
            let below = if path.len() == 0 {
                x[i].0
            } else {
                path + "."@ + x[i].0
            };
            diff_below(JsonView::Object(x), JsonView::Object(y), path) == (match member_at(
                y,
                x[i].0,
            ) {
                Some(j) => diff_below(x[i].1, y[j].1, below),
                None => Some(below),
            })
        }),
{
    let a = JsonView::Object(x);
    let b = JsonView::Object(y);
    lemma_no_diff_members(a, b, path, i as nat);
    assert forall|k: int| 0 <= k < i implies (match member_at(
        b->Object_0,
        (#[trigger] a->Object_0[k]).0,
    ) {
        Some(j) => same_value(a->Object_0[k].1, b->Object_0[j].1),
        None => false,
    }) by {
        assert(x[k] == a->Object_0[k]);
    }
    assert(diff_members(a, b, path, i as nat) is None);
    if let Some(j) = member_at(y, x[i].0) {
        lemma_no_diff_below(x[i].1, y[j].1, at_key(path, x[i].0));
    }
    assert(diff_members(a, b, path, (i + 1) as nat) is Some);
    lemma_first_member_stays(a, b, path, (i + 1) as nat, x.len());
}

proof fn lemma_first_member_stays(a: JsonView, b: JsonView, path: Seq<char>, m: nat, n: nat)
    requires
        m <= n,
        diff_members(a, b, path, m) is Some,
    ensures
        diff_members(a, b, path, n) == diff_members(a, b, path, m),
    decreases n,
{
    if m < n {
        lemma_first_member_stays(a, b, path, m, (n - 1) as nat);
    }
}

/// Where two arrays differ: at the first item in which they do, below its
/// number in brackets; else at the first number that only one of them has.
pub proof fn law_arrays_differ_at_their_first_item(
    x: Seq<JsonView>,
    y: Seq<JsonView>,
    path: Seq<char>,
    i: int,
)
    requires
        0 <= i,
        i <= x.len(),
        i <= y.len(),
        forall|k: int| 0 <= k < i ==> same_value(#[trigger] x[k], y[k]),
        i < x.len() && i < y.len() ==> !same_value(x[i], y[i]),
    ensures
        ({
            let below = path + "["@ + decimal_chars(i as nat) + "]"@;
            let found = diff_below(JsonView::Array(x), JsonView::Array(y), path);
            &&& i < x.len() && i < y.len() ==> found == diff_below(x[i], y[i], below)
            &&& (i == x.len() || i == y.len()) && x.len() != y.len() ==> found == Some(below)
            &&& i == x.len() && i == y.len() ==> found is None
        }),
{
    let a = JsonView::Array(x);
    let b = JsonView::Array(y);
    lemma_no_diff_items(a, b, path, i as nat);
    assert forall|k: int| 0 <= k < i implies same_value(
        #[trigger] a->Array_0[k],
        b->Array_0[k],
    ) by {
        assert(x[k] == a->Array_0[k]);
    }
    assert(diff_items(a, b, path, i as nat) is None);
    if i < x.len() && i < y.len() {
        lemma_no_diff_below(x[i], y[i], at_index(path, i as nat));
        lemma_first_item_stays(a, b, path, (i + 1) as nat, shorter(x.len(), y.len()));
    }
}

proof fn lemma_first_item_stays(a: JsonView, b: JsonView, path: Seq<char>, m: nat, n: nat)
    requires
        m <= n,
        diff_items(a, b, path, m) is Some,
    ensures
        diff_items(a, b, path, n) == diff_items(a, b, path, m),
    decreases n,
{
    if m < n {
        lemma_first_item_stays(a, b, path, m, (n - 1) as nat);
    }
}

/// A difference is told by its path, or as `(root)` where the values differ as
/// a whole; equal values have none.
pub proof fn law_differences_are_told_by_their_path(a: &Json, b: &Json, path: Option<String>)
    requires
        call_ensures(first_diff_path, (a, b), path),
    ensures
        path is None <==> same_value(a@, b@),
        path matches Some(p) ==> ({
            let found = diff_below(a@, b@, Seq::empty())->0;
            p@ == (if found.len() == 0 {
                "(root)"@
            } else {
                found
            })
        }),
{
    law_no_diff_means_equal(a@, b@);
}

} // verus!
