//! The one home of validating and matching event kinds.

use vstd::prelude::*;

use crate::failure::Error;
use crate::text::same;

verus! {

/// What is said of an empty name.
pub open spec fn empty_name_text(what: Seq<char>) -> Seq<char> {
    what
        + " is empty — an event kind / subject is a wire identity and must be a non-empty string"@
}

/// Refuses an event kind or subject that is empty. Any other text is a valid
/// wire identity.
pub fn validate_name(what: &str, name: &str) -> (r: Result<(), Error>)
    ensures
        r is Ok <==> name@.len() > 0,
        r matches Err(e) ==> (e matches Error::Message(m) && m@ == empty_name_text(what@)),
{
    if name.is_empty() {
        let mut text = what.to_owned();
        text.append(
            " is empty — an event kind / subject is a wire identity and must be a non-empty string",
        );
        Err(Error::Message(text))
    } else {
        Ok(())
    }
}

/// Whether a stored event type is of kind `name`: exact equality.
pub fn matches_kind(event_type: &str, name: &str) -> (matching: bool)
    ensures
        matching == (event_type@ == name@),
{
    same(event_type, name)
}

/// A wire identity is any text but the empty one, and kinds match only where
/// they are the same text.
pub proof fn law_kinds_are_exact_texts(
    what: &str,
    name: &str,
    event_type: &str,
    r: Result<(), Error>,
    matching: bool,
)
    requires
        call_ensures(validate_name, (what, name), r),
        call_ensures(matches_kind, (event_type, name), matching),
    ensures
        r is Err <==> name@.len() == 0,
        matching <==> event_type@ == name@,
{
}

} // verus!
