//! `Event`: the application-facing surface of what is appended to the log.

use vstd::prelude::*;

use crate::codec::Codec;
use crate::ids::{id_chars, id_text};
use crate::text::Chars;
use crate::types::Timestamp;

verus! {

/// An application event.
pub trait Event: Codec {
    /// The kind of entity the event is about; shared by all variants of a type.
    const CATEGORY: &'static str;

    /// The flat wire kind by which consumers and aggregators route the event.
    const NAME: &'static str = Self::CATEGORY;

    /// The category of the stream that stores the event,
    /// `{SUBJECT}-{subject_id}`. Set it to co-locate several event types.
    const SUBJECT: &'static str = Self::CATEGORY;

    spec fn event_type_of(&self) -> Chars;

    spec fn subject_of(&self) -> u128;

    spec fn occurred_of(&self) -> Option<Timestamp>;

    spec fn declared_of(&self) -> Option<u128>;

    /// The bare variant name, without the category.
    fn event_type(&self) -> (name: &str)
        ensures
            name@ == self.event_type_of(),
    ;

    /// The id of the stream the event belongs to.
    fn subject_id(&self) -> (id: u128)
        ensures
            id == self.subject_of(),
    ;

    /// The occurrence time claimed by the producer, if any.
    fn occurred_at(&self) -> (at: Option<Timestamp>)
        ensures
            at == self.occurred_of(),
    ;

    /// The workflow that the event roots, if it roots one.
    fn declared_workflow_id(&self) -> (id: Option<u128>)
        ensures
            id == self.declared_of(),
    ;
}

/// The name of the stream that stores `F` events of subject `id`:
/// `{SUBJECT}-{id}`.
pub fn stream_name_for<F: Event>(id: u128) -> (name: String)
    ensures
        name@ == F::SUBJECT@ + "-"@ + id_chars(id),
{
    let mut name = F::SUBJECT.to_owned();
    name.append("-");
    name.append(id_text(id).as_str());
    name
}

/// The composed type of an event: `{CATEGORY}:{event_type}`.
pub fn event_type_for<F: Event>(fact: &F) -> (name: String)
    ensures
        name@ == F::CATEGORY@ + ":"@ + fact.event_type_of(),
{
    let mut name = F::CATEGORY.to_owned();
    name.append(":");
    name.append(fact.event_type());
    name
}

/// A stream is named by the events' subject and the id in it; a composed type
/// by the events' category and the event's own.
pub proof fn law_names_are_composed<F: Event>(
    fact: &F,
    id: u128,
    stream: String,
    composed: String,
)
    requires
        call_ensures(stream_name_for::<F>, (id,), stream),
        call_ensures(event_type_for::<F>, (fact,), composed),
    ensures
        stream@ == F::SUBJECT@ + "-"@ + id_chars(id),
        composed@ == F::CATEGORY@ + ":"@ + fact.event_type_of(),
{
}

} // verus!
