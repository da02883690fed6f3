//! The durable JSON form of an output event.

use vstd::prelude::*;

use crate::ids::{id_chars, id_parse, id_text, lemma_id_chars_shape, parsed_id};
use crate::instants::{in_calendar, instant_chars, instant_parse, instant_text, parsed_instant};
use crate::json::{
    copy_members, distinct_keys, find_member, is_nul_free, json_views, law_sanitized_is_nul_free,
    lemma_json_view, lemma_member_at, lemma_merged, lemma_nul_free_keeps, lemma_sanitized, member,
    member_at, member_views, members_map, nul_free, ordered, sanitize_nul, sanitized,
    sanitized_members, sanitized_pairs, set_member, Json, JsonView,
};
use crate::text::lemma_text_less_total;
use crate::types::{event_views, EventData, EventView, Timestamp};

verus! {

/// The members of an event's envelope. Absent ids, an absent category and
/// empty metadata are left out.
pub open spec fn envelope_map(e: EventView) -> Map<Seq<char>, JsonView> {
    let base = Map::<Seq<char>, JsonView>::empty().insert(
        "event_id"@,
        JsonView::Str(id_chars(e.event_id)),
    ).insert("workflow_id"@, JsonView::Str(id_chars(e.workflow_id))).insert(
        "event_type"@,
        JsonView::Str(e.event_type),
    ).insert("payload"@, e.payload).insert(
        "created_at"@,
        JsonView::Str(instant_chars(e.created_at.secs, e.created_at.nanos)->0),
    );
    let base = match e.causation_id {
        Some(id) => base.insert("causation_id"@, JsonView::Str(id_chars(id))),
        None => base,
    };
    let base = match e.category {
        Some(c) => base.insert("category"@, JsonView::Str(c)),
        None => base,
    };
    let base = match e.subject_id {
        Some(id) => base.insert("subject_id"@, JsonView::Str(id_chars(id))),
        None => base,
    };
    if e.metadata.len() > 0 {
        base.insert("metadata"@, JsonView::Object(e.metadata))
    } else {
        base
    }
}

/// `value` is the envelope of `e`: an object of exactly its members, in
/// ascending key order.
pub open spec fn is_envelope(value: JsonView, e: EventView) -> bool {
    value matches JsonView::Object(members) && ordered(members) && members_map(members)
        == envelope_map(e)
}

/// Whether an event has an envelope: its instant lies within the calendar.
pub open spec fn has_envelope(e: EventView) -> bool {
    in_calendar(e.created_at)
}

/// A field of a record: the member of that name, or in a record written as an
/// array the item of that number.
pub open spec fn record_field(value: JsonView, name: Seq<char>, number: int) -> Option<JsonView> {
    match value {
        JsonView::Object(members) => member(members, name),
        JsonView::Array(items) => if number < items.len() {
            Some(items[number])
        } else {
            None
        },
        _ => None,
    }
}

/// The id that a field holds.
pub open spec fn id_field(field: Option<JsonView>) -> Option<u128> {
    match field {
        Some(JsonView::Str(s)) => parsed_id(s),
        _ => None,
    }
}

/// The text that a field holds.
pub open spec fn text_field(field: Option<JsonView>) -> Option<Seq<char>> {
    match field {
        Some(JsonView::Str(s)) => Some(s),
        _ => None,
    }
}

/// The optional id of a field; an absent field and null hold none.
pub open spec fn opt_id_field(field: Option<JsonView>) -> Option<Option<u128>> {
    match field {
        None => Some(None),
        Some(JsonView::Null) => Some(None),
        _ => match id_field(field) {
            Some(id) => Some(Some(id)),
            None => None,
        },
    }
}

/// The optional text of a field; an absent field and null hold none.
pub open spec fn opt_text_field(field: Option<JsonView>) -> Option<Option<Seq<char>>> {
    match field {
        None => Some(None),
        Some(JsonView::Null) => Some(None),
        _ => match text_field(field) {
            Some(s) => Some(Some(s)),
            None => None,
        },
    }
}

/// The object of a field; an absent field is an empty one.
pub open spec fn object_field(field: Option<JsonView>) -> Option<Seq<(Seq<char>, JsonView)>> {
    match field {
        None => Some(Seq::empty()),
        Some(JsonView::Object(members)) => Some(members),
        _ => None,
    }
}

/// The timestamp of an instant's seconds and nanoseconds.
pub open spec fn instant_at(at: (i64, u32)) -> Timestamp {
    Timestamp { secs: at.0, nanos: at.1 }
}

/// The event that an envelope holds, if it is one: an object with the required
/// members, or an array of six to nine items in field order.
pub open spec fn decoded_event(value: JsonView) -> Option<EventView> {
    let record = match value {
        JsonView::Object(_) => true,
        JsonView::Array(items) => 6 <= items.len() <= 9,
        _ => false,
    };
    let event_id = id_field(record_field(value, "event_id"@, 0));
    let causation_id = opt_id_field(record_field(value, "causation_id"@, 1));
    let workflow_id = id_field(record_field(value, "workflow_id"@, 2));
    let event_type = text_field(record_field(value, "event_type"@, 3));
    let payload = record_field(value, "payload"@, 4);
    let created_text = text_field(record_field(value, "created_at"@, 5));
    let category = opt_text_field(record_field(value, "category"@, 6));
    let subject_id = opt_id_field(record_field(value, "subject_id"@, 7));
    let metadata = object_field(record_field(value, "metadata"@, 8));
    if record && event_id is Some && causation_id is Some && workflow_id is Some && event_type
        is Some && payload is Some && created_text is Some && parsed_instant(created_text->0)
        is Some && category is Some && subject_id is Some && metadata is Some {
        Some(
            EventView {
                event_id: event_id->0,
                causation_id: causation_id->0,
                workflow_id: workflow_id->0,
                event_type: event_type->0,
                payload: payload->0,
                created_at: instant_at(parsed_instant(created_text->0)->0),
                category: category->0,
                subject_id: subject_id->0,
                metadata: metadata->0,
                persistent: true,
            },
        )
    } else {
        None
    }
}

/// An event as durable storage keeps it: NUL characters stripped from its
/// texts and values, and persistent.
pub open spec fn durable(e: EventView) -> EventView {
    EventView {
        event_type: nul_free(e.event_type),
        payload: sanitized(e.payload),
        category: match e.category {
            Some(c) => Some(nul_free(c)),
            None => None,
        },
        metadata: sanitized_members(e.metadata),
        persistent: true,
        ..e
    }
}

/// The durable forms of a list of events.
pub open spec fn durable_all(events: Seq<EventView>) -> Seq<EventView> {
    Seq::new(events.len(), |i: int| durable(events[i]))
}

/// The text that an id parses back from.
spec fn id_reads_back(id: u128) -> bool {
    parsed_id(id_chars(id)) == Some(id)
}

spec fn opt_id_reads_back(id: Option<u128>) -> bool {
    match id {
        Some(id) => id_reads_back(id),
        None => true,
    }
}

proof fn lemma_field_names_differ()
    ensures
        "category"@.len() == 8 && "category"@[0] == 'c',
        "event_id"@.len() == 8 && "event_id"@[0] == 'e',
        "metadata"@.len() == 8 && "metadata"@[0] == 'm',
        "created_at"@.len() == 10 && "created_at"@[0] == 'c',
        "event_type"@.len() == 10 && "event_type"@[0] == 'e',
        "subject_id"@.len() == 10 && "subject_id"@[0] == 's',
        "causation_id"@.len() == 12,
        "workflow_id"@.len() == 11,
        "payload"@.len() == 7,
{
    reveal_strlit("category");
    reveal_strlit("event_id");
    reveal_strlit("metadata");
    reveal_strlit("created_at");
    reveal_strlit("event_type");
    reveal_strlit("subject_id");
    reveal_strlit("causation_id");
    reveal_strlit("workflow_id");
    reveal_strlit("payload");
}

/// Whether no two members have one key and no key holds a NUL character.
spec fn plain_keys(members: Seq<(Seq<char>, JsonView)>) -> bool {
    distinct_keys(members) && forall|i: int|
        0 <= i < members.len() ==> nul_free((#[trigger] members[i]).0) == members[i].0
}

/// The keys of an envelope are those of its fields.
proof fn lemma_envelope_keys(members: Seq<(Seq<char>, JsonView)>, e: EventView)
    requires
        ordered(members),
        members_map(members) == envelope_map(e),
    ensures
        plain_keys(members),
{
    assert forall|i: int, j: int| 0 <= i < j < members.len() implies (#[trigger] members[i]).0 != (
    #[trigger] members[j]).0 by {
        lemma_text_less_total(members[i].0, members[j].0);
    }
    reveal_strlit("category");
    reveal_strlit("event_id");
    reveal_strlit("metadata");
    reveal_strlit("created_at");
    reveal_strlit("event_type");
    reveal_strlit("subject_id");
    reveal_strlit("causation_id");
    reveal_strlit("workflow_id");
    reveal_strlit("payload");
    assert forall|i: int| 0 <= i < members.len() implies nul_free((#[trigger] members[i]).0)
        == members[i].0 by {
        let key = members[i].0;
        lemma_member_at(members, key);
        assert(members_map(members).contains_key(key));
        assert(envelope_map(e).contains_key(key));
        assert(!key.contains('\0'));
        lemma_nul_free_keeps(key);
    }
}

/// Sanitizing an object with plain keys sanitizes the value of each.
proof fn lemma_sanitized_member(members: Seq<(Seq<char>, JsonView)>, key: Seq<char>)
    requires
        plain_keys(members),
    ensures
        member(sanitized_members(members), key) == (match member(members, key) {
            Some(v) => Some(sanitized(v)),
            None => None,
        }),
{
    lemma_member_at(members, key);
    let clean = sanitized_members(members);
    let pairs = sanitized_pairs(members);
    assert forall|i: int, j: int| 0 <= i < j < pairs.len() implies (#[trigger] pairs[i]).0 != (
    #[trigger] pairs[j]).0 by {
        assert(members[i].0 != members[j].0);
    }
    lemma_merged(pairs);
    lemma_member_at(clean, key);
    match member_at(members, key) {
        Some(i) => {
            assert(clean[i].0 == key);
            let j = member_at(clean, key)->0;
            if j < i {
                assert(members[j].0 == clean[j].0);
            }
        },
        None => {
            if member_at(clean, key) is Some {
                let j = member_at(clean, key)->0;
                assert(members[j].0 == clean[j].0);
            }
        },
    }
}

/// What each member of an envelope holds.
spec fn holds_event(members: Seq<(Seq<char>, JsonView)>, e: EventView) -> bool {
    &&& member(members, "event_id"@) == Some(JsonView::Str(id_chars(e.event_id)))
    &&& member(members, "workflow_id"@) == Some(JsonView::Str(id_chars(e.workflow_id)))
    &&& member(members, "event_type"@) == Some(JsonView::Str(e.event_type))
    &&& member(members, "payload"@) == Some(e.payload)
    &&& member(members, "created_at"@) == Some(
        JsonView::Str(instant_chars(e.created_at.secs, e.created_at.nanos)->0),
    )
    &&& member(members, "causation_id"@) == (match e.causation_id {
        Some(id) => Some(JsonView::Str(id_chars(id))),
        None => None,
    })
    &&& member(members, "category"@) == (match e.category {
        Some(c) => Some(JsonView::Str(c)),
        None => None,
    })
    &&& member(members, "subject_id"@) == (match e.subject_id {
        Some(id) => Some(JsonView::Str(id_chars(id))),
        None => None,
    })
    &&& member(members, "metadata"@) == (if e.metadata.len() > 0 {
        Some(JsonView::Object(e.metadata))
    } else {
        None
    })
}

/// Whether the ids and the instant of an event parse back from their texts.
spec fn reads_back(e: EventView) -> bool {
    let text = instant_chars(e.created_at.secs, e.created_at.nanos);
    &&& id_reads_back(e.event_id)
    &&& id_reads_back(e.workflow_id)
    &&& opt_id_reads_back(e.causation_id)
    &&& opt_id_reads_back(e.subject_id)
    &&& text is Some
    &&& parsed_instant(text->0) == Some((e.created_at.secs, e.created_at.nanos))
    &&& !text->0.contains('\0')
}

proof fn lemma_envelope_members(members: Seq<(Seq<char>, JsonView)>, e: EventView)
    requires
        members_map(members) == envelope_map(e),
    ensures
        holds_event(members, e),
{
    lemma_field_names_differ();
    assert forall|k: Seq<char>| #[trigger] member(members, k) == (if envelope_map(e).contains_key(k) {
        Some(envelope_map(e)[k])
    } else {
        None
    }) by {
        assert(members_map(members).contains_key(k) == envelope_map(e).contains_key(k));
        if envelope_map(e).contains_key(k) {
            assert(members_map(members)[k] == envelope_map(e)[k]);
        }
    }
}

proof fn lemma_id_stays(id: u128)
    ensures
        sanitized(JsonView::Str(id_chars(id))) == JsonView::Str(id_chars(id)),
{
    lemma_id_chars_shape(id);
    lemma_text_stays(id_chars(id));
}

proof fn lemma_text_stays(text: Seq<char>)
    requires
        !text.contains('\0'),
    ensures
        sanitized(JsonView::Str(text)) == JsonView::Str(text),
{
    lemma_nul_free_keeps(text);
}

/// Sanitizing the envelope of an event gives the members of its durable form.
proof fn lemma_sanitized_envelope(members: Seq<(Seq<char>, JsonView)>, e: EventView)
    requires
        plain_keys(members),
        holds_event(members, e),
        reads_back(e),
    ensures
        holds_event(sanitized_members(members), durable(e)),
{
    lemma_merged(sanitized_pairs(e.metadata));
    lemma_sanitized_member(members, "event_id"@);
    lemma_sanitized_member(members, "causation_id"@);
    lemma_sanitized_member(members, "workflow_id"@);
    lemma_sanitized_member(members, "event_type"@);
    lemma_sanitized_member(members, "payload"@);
    lemma_sanitized_member(members, "created_at"@);
    lemma_sanitized_member(members, "category"@);
    lemma_sanitized_member(members, "subject_id"@);
    lemma_sanitized_member(members, "metadata"@);
    lemma_id_stays(e.event_id);
    lemma_id_stays(e.workflow_id);
    match e.causation_id {
        Some(id) => lemma_id_stays(id),
        None => {},
    }
    match e.subject_id {
        Some(id) => lemma_id_stays(id),
        None => {},
    }
    lemma_nul_free_keeps(instant_chars(e.created_at.secs, e.created_at.nanos)->0);
    lemma_sanitized(JsonView::Object(e.metadata));
}

/// An object with the members of a persistent event decodes to it.
proof fn lemma_members_decode(members: Seq<(Seq<char>, JsonView)>, e: EventView)
    requires
        holds_event(members, e),
        reads_back(e),
        e.persistent,
    ensures
        decoded_event(JsonView::Object(members)) == Some(e),
{
    if e.metadata.len() == 0 {
        assert(e.metadata =~= Seq::<(Seq<char>, JsonView)>::empty());
    }
}

/// The envelope of an event, and, once sanitized, what it decodes to. `None`
/// for an instant outside the calendar.
fn envelope(e: &EventData) -> (r: Option<Json>)
    ensures
        r is Some <==> has_envelope(e@),
        r matches Some(value) ==> is_envelope(value@, e@) && decoded_event(sanitized(value@))
            == Some(durable(e@)),
{
    let created = match instant_text(e.created_at) {
        Some(t) => t,
        None => {
            return None;
        },
    };
    let mut m: Vec<(String, Json)> = Vec::new();
    proof {
        assert(member_views(m@) =~= Seq::<(Seq<char>, JsonView)>::empty());
        assert(members_map(member_views(m@)) =~= Map::<Seq<char>, JsonView>::empty());
    }
    set_member(&mut m, "event_id", Json::Str(id_text(e.event_id)));
    set_member(&mut m, "workflow_id", Json::Str(id_text(e.workflow_id)));
    set_member(&mut m, "event_type", Json::Str(e.event_type.clone()));
    set_member(&mut m, "payload", e.payload.copy());
    set_member(&mut m, "created_at", Json::Str(created));
    if let Some(id) = e.causation_id {
        set_member(&mut m, "causation_id", Json::Str(id_text(id)));
    }
    if let Some(c) = &e.category {
        set_member(&mut m, "category", Json::Str(c.clone()));
    }
    if let Some(id) = e.subject_id {
        set_member(&mut m, "subject_id", Json::Str(id_text(id)));
    }
    if e.metadata.len() > 0 {
        let metadata = Json::Object(copy_members(&e.metadata));
        proof {
            lemma_json_view(metadata);
        }
        set_member(&mut m, "metadata", metadata);
    }
    let value = Json::Object(m);
    proof {
        lemma_json_view(value);
        let members = member_views(value->Object_0@);
        lemma_envelope_members(members, e@);
        lemma_envelope_keys(members, e@);
        lemma_sanitized_envelope(members, e@);
        lemma_sanitized(value@);
        lemma_members_decode(sanitized_members(members), durable(e@));
    }
    Some(value)
}

/// A field of a record.
fn read_field<'a>(value: &'a Json, name: &str, number: usize) -> (field: Option<&'a Json>)
    ensures
        opt_json(field) == record_field(value@, name@, number as int),
{
    proof {
        lemma_json_view(*value);
    }
    match value {
        Json::Object(members) => match find_member(members, name) {
            Some(i) => {
                proof {
                    lemma_member_at(member_views(members@), name@);
                }
                Some(&members[i].1)
            },
            None => None,
        },
        Json::Array(items) => if number < items.len() {
            Some(&items[number])
        } else {
            None
        },
        _ => None,
    }
}

/// The view of an optional value.
pub open spec fn opt_json(value: Option<&Json>) -> Option<JsonView> {
    match value {
        Some(v) => Some(v@),
        None => None,
    }
}

fn read_id(field: Option<&Json>) -> (id: Option<u128>)
    ensures
        id == id_field(opt_json(field)),
{
    match field {
        Some(Json::Str(s)) => id_parse(s.as_str()),
        _ => None,
    }
}

fn read_opt_id(field: Option<&Json>) -> (id: Option<Option<u128>>)
    ensures
        id == opt_id_field(opt_json(field)),
{
    match field {
        None => Some(None),
        Some(Json::Null) => Some(None),
        _ => match read_id(field) {
            Some(id) => Some(Some(id)),
            None => None,
        },
    }
}

fn read_text(field: Option<&Json>) -> (text: Option<String>)
    ensures
        match text {
            Some(t) => text_field(opt_json(field)) == Some(t@),
            None => text_field(opt_json(field)) is None,
        },
{
    match field {
        Some(Json::Str(s)) => Some(s.clone()),
        _ => None,
    }
}

fn read_opt_text(field: Option<&Json>) -> (text: Option<Option<String>>)
    ensures
        match text {
            Some(Some(t)) => opt_text_field(opt_json(field)) == Some(Some(t@)),
            Some(None) => opt_text_field(opt_json(field)) == Some(None::<Seq<char>>),
            None => opt_text_field(opt_json(field)) is None,
        },
{
    match field {
        None => Some(None),
        Some(Json::Null) => Some(None),
        _ => match read_text(field) {
            Some(t) => Some(Some(t)),
            None => None,
        },
    }
}

fn read_object(field: Option<&Json>) -> (members: Option<Vec<(String, Json)>>)
    ensures
        match members {
            Some(m) => object_field(opt_json(field)) == Some(member_views(m@)),
            None => object_field(opt_json(field)) is None,
        },
{
    match field {
        None => {
            let m: Vec<(String, Json)> = Vec::new();
            assert(member_views(m@) =~= Seq::<(Seq<char>, JsonView)>::empty());
            Some(m)
        },
        Some(value) => {
            proof {
                lemma_json_view(*value);
            }
            match value {
                Json::Object(members) => Some(copy_members(members)),
                _ => None,
            }
        },
    }
}

/// The event that an envelope holds.
fn open_envelope(value: &Json) -> (e: Option<EventData>)
    ensures
        match e {
            Some(e) => decoded_event(value@) == Some(e@),
            None => decoded_event(value@) is None,
        },
{
    proof {
        lemma_json_view(*value);
    }
    let record = match value {
        Json::Object(_) => true,
        Json::Array(items) => 6 <= items.len() && items.len() <= 9,
        _ => false,
    };
    if !record {
        return None;
    }
    let event_id = read_id(read_field(value, "event_id", 0));
    let causation_id = read_opt_id(read_field(value, "causation_id", 1));
    let workflow_id = read_id(read_field(value, "workflow_id", 2));
    let event_type = read_text(read_field(value, "event_type", 3));
    let payload = read_field(value, "payload", 4);
    let created = read_text(read_field(value, "created_at", 5));
    let category = read_opt_text(read_field(value, "category", 6));
    let subject_id = read_opt_id(read_field(value, "subject_id", 7));
    let metadata = read_object(read_field(value, "metadata", 8));
    let created_at = match &created {
        Some(t) => instant_parse(t.as_str()),
        None => None,
    };
    match (event_id, causation_id, workflow_id, event_type, payload) {
        (
            Some(event_id),
            Some(causation_id),
            Some(workflow_id),
            Some(event_type),
            Some(payload),
        ) => match (created_at, category, subject_id, metadata) {
            (Some(created_at), Some(category), Some(subject_id), Some(metadata)) => Some(
                EventData {
                    event_id,
                    causation_id,
                    workflow_id,
                    event_type,
                    payload: payload.copy(),
                    created_at,
                    category,
                    subject_id,
                    metadata,
                    persistent: true,
                },
            ),
            _ => None,
        },
        _ => None,
    }
}

/// The events that a list of envelopes holds, if every item is one.
pub open spec fn decoded_items(items: Seq<JsonView>) -> Option<Seq<EventView>>
    decreases items.len(),
{
    if items.len() == 0 {
        Some(Seq::empty())
    } else {
        match (decoded_items(items.drop_last()), decoded_event(items.last())) {
            (Some(head), Some(e)) => Some(head.push(e)),
            _ => None,
        }
    }
}

/// The events that a stored batch holds.
pub open spec fn decoded_events(value: JsonView) -> Option<Seq<EventView>> {
    match value {
        JsonView::Array(items) => decoded_items(items),
        _ => None,
    }
}

/// `item` is the stored form of `e`: its envelope, sanitized.
pub open spec fn is_stored(item: JsonView, e: EventView) -> bool {
    exists|v: JsonView| #[trigger] is_envelope(v, e) && item == sanitized(v)
}

/// `value` is the stored form of `events`: an array of theirs.
pub open spec fn is_batch(value: JsonView, events: Seq<EventView>) -> bool {
    value matches JsonView::Array(items) && items.len() == events.len() && forall|i: int|
        0 <= i < items.len() ==> is_stored(#[trigger] items[i], events[i])
}

/// Writes a batch. `None` where an instant lies outside the calendar. What was
/// written decodes to the durable form of the events.
pub fn write_batch(events: &Vec<EventData>) -> (r: Option<Json>)
    ensures
        r is Some <==> forall|i: int|
            0 <= i < events@.len() ==> has_envelope((#[trigger] events@[i])@),
        r matches Some(value) ==> is_batch(value@, event_views(events@)) && is_nul_free(value@)
            && decoded_events(value@) == Some(durable_all(event_views(events@))),
{
    let mut items: Vec<Json> = Vec::new();
    let mut i: usize = 0;
    let ghost all = event_views(events@);
    assert(json_views(items@) =~= Seq::<JsonView>::empty());
    assert(durable_all(all.take(0)) =~= Seq::<EventView>::empty());
    while i < events.len()
        invariant
            i <= events@.len(),
            items@.len() == i,
            all == event_views(events@),
            forall|j: int| 0 <= j < i ==> has_envelope((#[trigger] events@[j])@),
            forall|j: int|
                0 <= j < i ==> is_stored(#[trigger] json_views(items@)[j], all[j]) && is_nul_free(
                    json_views(items@)[j],
                ),
            decoded_items(json_views(items@)) == Some(durable_all(all.take(i as int))),
        decreases events@.len() - i,
    {
        let ghost was = json_views(items@);
        match envelope(&events[i]) {
            Some(value) => {
                let item = sanitize_nul(&value);
                items.push(item);
                proof {
                    let now = json_views(items@);
                    assert(now.drop_last() =~= was);
                    assert(now.last() == sanitized(value@));
                    assert(is_envelope(value@, all[i as int]));
                    law_sanitized_is_nul_free(value@);
                    assert forall|j: int| 0 <= j < i + 1 implies is_stored(
                        #[trigger] now[j],
                        all[j],
                    ) && is_nul_free(now[j]) by {
                        if j < i {
                            assert(was[j] == now[j]);
                        }
                    }
                    assert(durable_all(all.take(i + 1)) =~= durable_all(all.take(i as int)).push(
                        durable(all[i as int]),
                    ));
                }
            },
            None => {
                return None;
            },
        }
        i += 1;
    }
    let r = Json::Array(items);
    proof {
        lemma_json_view(r);
        assert(all.take(i as int) =~= all);
    }
    Some(r)
}

/// Reads a batch back.
pub fn read_batch(value: &Json) -> (r: Option<Vec<EventData>>)
    ensures
        match r {
            Some(events) => decoded_events(value@) == Some(event_views(events@)),
            None => decoded_events(value@) is None,
        },
{
    proof {
        lemma_json_view(*value);
    }
    match value {
        Json::Array(items) => {
            let ghost all = json_views(items@);
            let mut events: Vec<EventData> = Vec::new();
            let mut i: usize = 0;
            assert(event_views(events@) =~= Seq::<EventView>::empty());
            assert(all.take(0) =~= Seq::<JsonView>::empty());
            while i < items.len()
                invariant
                    i <= items@.len(),
                    value@ == JsonView::Array(all),
                    all == json_views(items@),
                    decoded_items(all.take(i as int)) == Some(event_views(events@)),
                decreases items@.len() - i,
            {
                let ghost was = events@;
                assert(all.take(i + 1).drop_last() =~= all.take(i as int));
                assert(all.take(i + 1).last() == items@[i as int]@);
                match open_envelope(&items[i]) {
                    Some(e) => {
                        events.push(e);
                        assert(event_views(events@) =~= event_views(was).push(e@));
                    },
                    None => {
                        proof {
                            lemma_bad_item_sticks(all, i + 1);
                        }
                        return None;
                    },
                }
                i += 1;
            }
            assert(all.take(i as int) =~= all);
            Some(events)
        },
        _ => None,
    }
}

proof fn lemma_bad_item_sticks(items: Seq<JsonView>, n: int)
    requires
        0 <= n <= items.len(),
        decoded_items(items.take(n)) is None,
    ensures
        decoded_items(items) is None,
    decreases items.len() - n,
{
    if n < items.len() {
        assert(items.take(n + 1).drop_last() =~= items.take(n));
        lemma_bad_item_sticks(items, n + 1);
    } else {
        assert(items.take(n) =~= items);
    }
}

/// What an event looks like in storage: an object that names its ids, its
/// type, its payload and its stream, each under its own name and without NUL
/// characters. What an event lacks is left out.
pub proof fn law_events_look_like_this_in_storage(
    events: &Vec<EventData>,
    value: Json,
    i: int,
)
    requires
        call_ensures(write_batch, (events,), Some(value)),
        0 <= i < events@.len(),
    ensures
        value@ matches JsonView::Array(items) && items.len() == events@.len() && (
        items[i] matches JsonView::Object(m) && {
            let e = events@[i];
            &&& member(m, "event_id"@) == Some(JsonView::Str(id_chars(e.event_id)))
            &&& member(m, "workflow_id"@) == Some(JsonView::Str(id_chars(e.workflow_id)))
            &&& member(m, "causation_id"@) == (match e.causation_id {
                Some(id) => Some(JsonView::Str(id_chars(id))),
                None => None,
            })
            &&& member(m, "subject_id"@) == (match e.subject_id {
                Some(id) => Some(JsonView::Str(id_chars(id))),
                None => None,
            })
            &&& member(m, "event_type"@) == Some(
                JsonView::Str(e.event_type@.filter(|c: char| c != '\0')),
            )
            &&& member(m, "payload"@) == Some(sanitized(e.payload@))
            &&& member(m, "created_at"@) == Some(
                sanitized(
                    JsonView::Str(instant_chars(e.created_at.secs, e.created_at.nanos)->0),
                ),
            )
            &&& member(m, "category"@) == (match e.category {
                Some(c) => Some(JsonView::Str(c@.filter(|c: char| c != '\0'))),
                None => None,
            })
            &&& member(m, "metadata"@) is Some <==> e.metadata@.len() > 0
            &&& e.metadata@.len() > 0 ==> member(m, "metadata"@) == Some(
                sanitized(JsonView::Object(member_views(e.metadata@))),
            )
        }),
{
    let items = value@->Array_0;
    let views = event_views(events@);
    let e = views[i];
    assert(e == events@[i]@);
    assert(is_stored(items[i], e));
    let v = choose|v: JsonView| #[trigger] is_envelope(v, e) && items[i] == sanitized(v);
    let ms = v->Object_0;
    lemma_envelope_keys(ms, e);
    lemma_envelope_members(ms, e);
    lemma_sanitized(v);
    lemma_sanitized_member(ms, "event_id"@);
    lemma_sanitized_member(ms, "causation_id"@);
    lemma_sanitized_member(ms, "workflow_id"@);
    lemma_sanitized_member(ms, "event_type"@);
    lemma_sanitized_member(ms, "payload"@);
    lemma_sanitized_member(ms, "created_at"@);
    lemma_sanitized_member(ms, "category"@);
    lemma_sanitized_member(ms, "subject_id"@);
    lemma_sanitized_member(ms, "metadata"@);
    lemma_id_stays(e.event_id);
    lemma_id_stays(e.workflow_id);
    match e.causation_id {
        Some(id) => lemma_id_stays(id),
        None => {},
    }
    match e.subject_id {
        Some(id) => lemma_id_stays(id),
        None => {},
    }
    lemma_sanitized(JsonView::Str(e.event_type));
    if let Some(c) = e.category {
        lemma_sanitized(JsonView::Str(c));
    }
    assert(e.metadata.len() == events@[i].metadata@.len());
}

proof fn lemma_decoded_items(items: Seq<JsonView>, events: Seq<EventView>)
    requires
        decoded_items(items) == Some(events),
    ensures
        events.len() == items.len(),
        forall|i: int|
            0 <= i < items.len() ==> decoded_event(#[trigger] items[i]) == Some(events[i]),
    decreases items.len(),
{
    if items.len() > 0 {
        let head = decoded_items(items.drop_last())->0;
        lemma_decoded_items(items.drop_last(), head);
        assert forall|i: int| 0 <= i < items.len() implies decoded_event(#[trigger] items[i])
            == Some(events[i]) by {
            if i < items.len() - 1 {
                assert(items.drop_last()[i] == items[i]);
                assert(events[i] == head[i]);
            }
        }
    }
}

/// What is read of a stored event: each field from the member of its name, or
/// in a record written as an array from its place. An absent or null optional
/// field is none; every event read is one to be kept.
pub proof fn law_events_are_read_by_name_or_place(
    value: &Json,
    events: Vec<EventData>,
    i: int,
)
    requires
        call_ensures(read_batch, (value,), Some(events)),
        0 <= i < events@.len(),
    ensures
        value@ matches JsonView::Array(items) && items.len() == events@.len() && {
            let e = events@[i];
            let field = |name: Seq<char>, place: int| match items[i] {
                JsonView::Object(m) => member(m, name),
                JsonView::Array(fields) => if place < fields.len() {
                    Some(fields[place])
                } else {
                    None
                },
                _ => None,
            };
            &&& items[i] is Object || (items[i] matches JsonView::Array(fields) && 6 <= fields.len()
                <= 9)
            &&& field("event_id"@, 0) matches Some(JsonView::Str(s)) && parsed_id(s) == Some(
                e.event_id,
            )
            &&& field("workflow_id"@, 2) matches Some(JsonView::Str(s)) && parsed_id(s) == Some(
                e.workflow_id,
            )
            &&& field("event_type"@, 3) == Some(JsonView::Str(e.event_type@))
            &&& field("payload"@, 4) == Some(e.payload@)
            &&& field("created_at"@, 5) matches Some(JsonView::Str(s)) && parsed_instant(s) == Some(
                (e.created_at.secs, e.created_at.nanos),
            )
            &&& match e.causation_id {
                Some(id) => field("causation_id"@, 1) matches Some(JsonView::Str(s)) && parsed_id(s)
                    == Some(id),
                None => field("causation_id"@, 1) is None || field("causation_id"@, 1) == Some(
                    JsonView::Null,
                ),
            }
            &&& match e.subject_id {
                Some(id) => field("subject_id"@, 7) matches Some(JsonView::Str(s)) && parsed_id(s)
                    == Some(id),
                None => field("subject_id"@, 7) is None || field("subject_id"@, 7) == Some(
                    JsonView::Null,
                ),
            }
            &&& match e.category {
                Some(c) => field("category"@, 6) == Some(JsonView::Str(c@)),
                None => field("category"@, 6) is None || field("category"@, 6) == Some(
                    JsonView::Null,
                ),
            }
            &&& field("metadata"@, 8) == Some(JsonView::Object(member_views(e.metadata@))) || (
            field("metadata"@, 8) is None && e.metadata@.len() == 0)
            &&& e.persistent
        },
{
    let items = value@->Array_0;
    let views = event_views(events@);
    lemma_decoded_items(items, views);
    assert(views[i] == events@[i]@);
    assert(decoded_event(items[i]) == Some(views[i]));
    assert(member_views(events@[i].metadata@).len() == events@[i].metadata@.len());
}

/// A member that may be left out or be null, and is an id otherwise.
pub open spec fn may_be_id(field: Option<JsonView>) -> bool {
    field is None || field == Some(JsonView::Null) || (field matches Some(JsonView::Str(s))
        && parsed_id(s) is Some)
}

/// A stored event that can be read, field by field.
pub open spec fn readable_event(field: spec_fn(Seq<char>, int) -> Option<JsonView>) -> bool {
    &&& field("event_id"@, 0) matches Some(JsonView::Str(s)) && parsed_id(s) is Some
    &&& may_be_id(field("causation_id"@, 1))
    &&& field("workflow_id"@, 2) matches Some(JsonView::Str(s)) && parsed_id(s) is Some
    &&& field("event_type"@, 3) matches Some(JsonView::Str(_))
    &&& field("payload"@, 4) is Some
    &&& field("created_at"@, 5) matches Some(JsonView::Str(s)) && parsed_instant(s) is Some
    &&& field("category"@, 6) is None || field("category"@, 6) == Some(JsonView::Null) || (field(
        "category"@,
        6,
    ) matches Some(JsonView::Str(_)))
    &&& may_be_id(field("subject_id"@, 7))
    &&& field("metadata"@, 8) is None || (field("metadata"@, 8) matches Some(JsonView::Object(_)))
}

/// A batch is read exactly where every item is an object, or a list of six to
/// nine fields in their places, whose fields are as an event's.
pub proof fn law_well_formed_events_are_read(value: &Json, r: Option<Vec<EventData>>)
    requires
        call_ensures(read_batch, (value,), r),
    ensures
        r is Some <==> (value@ matches JsonView::Array(items) && forall|i: int|
            0 <= i < items.len() ==> (match #[trigger] items[i] {
                JsonView::Object(m) => readable_event(|name: Seq<char>, place: int| member(m, name)),
                JsonView::Array(fields) => 6 <= fields.len() <= 9 && readable_event(
                    |name: Seq<char>, place: int|
                        if place < fields.len() {
                            Some(fields[place])
                        } else {
                            None
                        },
                ),
                _ => false,
            })),
{
    if let JsonView::Array(items) = value@ {
        lemma_items_decode(items);
        assert forall|i: int| 0 <= i < items.len() implies (decoded_event(#[trigger] items[i])
            is Some <==> match items[i] {
            JsonView::Object(m) => readable_event(|name: Seq<char>, place: int| member(m, name)),
            JsonView::Array(fields) => 6 <= fields.len() <= 9 && readable_event(
                |name: Seq<char>, place: int|
                    if place < fields.len() {
                        Some(fields[place])
                    } else {
                        None
                    },
            ),
            _ => false,
        }) by {
            lemma_readable(items[i]);
        }
    }
}

proof fn lemma_readable(item: JsonView)
    ensures
        decoded_event(item) is Some <==> match item {
            JsonView::Object(m) => readable_event(|name: Seq<char>, place: int| member(m, name)),
            JsonView::Array(fields) => 6 <= fields.len() <= 9 && readable_event(
                |name: Seq<char>, place: int|
                    if place < fields.len() {
                        Some(fields[place])
                    } else {
                        None
                    },
            ),
            _ => false,
        },
{
}

proof fn lemma_items_decode(items: Seq<JsonView>)
    ensures
        decoded_items(items) is Some <==> forall|i: int|
            0 <= i < items.len() ==> decoded_event(#[trigger] items[i]) is Some,
    decreases items.len(),
{
    if items.len() > 0 {
        let head = items.drop_last();
        lemma_items_decode(head);
        if decoded_items(items) is Some {
            assert forall|i: int| 0 <= i < items.len() implies decoded_event(#[trigger] items[i])
                is Some by {
                if i < head.len() {
                    assert(head[i] == items[i]);
                }
            }
        }
        if forall|i: int| 0 <= i < items.len() ==> decoded_event(#[trigger] items[i]) is Some {
            assert forall|i: int| 0 <= i < head.len() implies decoded_event(#[trigger] head[i])
                is Some by {
                assert(head[i] == items[i]);
            }
            assert(decoded_event(items[items.len() - 1]) is Some);
        }
    }
}

} // verus!
