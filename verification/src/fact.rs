//! `Fact`: an application event of the outbox engine.

use vstd::prelude::*;

use crate::codec::Codec;
use crate::ids::{id_chars, id_text};
use crate::text::Chars;
use crate::types::Timestamp;

verus! {

/// An application event.
pub trait Fact: Codec {
    /// The category of the streams that store the facts; shared by all
    /// variants of a type.
    const CATEGORY: &'static str;

    spec fn name_of(&self) -> Chars;

    spec fn stream_of(&self) -> u128;

    spec fn occurred_of(&self) -> Option<Timestamp>;

    /// The bare variant name, without the category.
    fn name(&self) -> (name: &str)
        ensures
            name@ == self.name_of(),
    ;

    /// The id of the stream the fact belongs to.
    fn stream_id(&self) -> (id: u128)
        ensures
            id == self.stream_of(),
    ;

    /// The occurrence time claimed by the producer, if any.
    fn occurred_at(&self) -> (at: Option<Timestamp>)
        ensures
            at == self.occurred_of(),
    ;
}

/// The name of the stream that stores a fact: `{CATEGORY}-{stream_id}`.
pub fn stream_name<F: Fact>(fact: &F) -> (name: String)
    ensures
        name@ == F::CATEGORY@ + "-"@ + id_chars(fact.stream_of()),
{
    let mut name = F::CATEGORY.to_owned();
    name.append("-");
    name.append(id_text(fact.stream_id()).as_str());
    name
}

/// The stored type of a fact: `{CATEGORY}:{name}`.
pub fn stored_type<F: Fact>(fact: &F) -> (name: String)
    ensures
        name@ == F::CATEGORY@ + ":"@ + fact.name_of(),
{
    let mut name = F::CATEGORY.to_owned();
    name.append(":");
    name.append(fact.name());
    name
}

/// A stream is named by the facts' category and the fact's stream id; a stored
/// type by that category and the fact's own name.
pub proof fn law_names_are_composed<F: Fact>(fact: &F, stream: String, stored: String)
    requires
        call_ensures(stream_name::<F>, (fact,), stream),
        call_ensures(stored_type::<F>, (fact,), stored),
    ensures
        stream@ == F::CATEGORY@ + "-"@ + id_chars(fact.stream_of()),
        stored@ == F::CATEGORY@ + ":"@ + fact.name_of(),
{
}

} // verus!
