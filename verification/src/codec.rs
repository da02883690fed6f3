//! How application values pass to and from JSON.

use vstd::prelude::*;

use crate::failure::{is_message, Error};
use crate::json::{Json, JsonView};

verus! {

/// A value with a JSON form. Applications implement it for the payloads and
/// states they hand to the runtime; both directions are pure.
pub trait Codec: Sized {
    /// The value that `value` decodes to, or `None` where it does not decode.
    spec fn decoded(value: JsonView) -> Option<Self>;

    /// The JSON form of the value, or `None` where it has none.
    spec fn encoded(&self) -> Option<JsonView>;

    fn decode(value: &Json) -> (r: Result<Self, String>)
        ensures
            match r {
                Ok(v) => Self::decoded(value@) == Some(v),
                Err(_) => Self::decoded(value@) is None,
            },
    ;

    fn encode(&self) -> (r: Result<Json, String>)
        ensures
            match r {
                Ok(json) => self.encoded() == Some(json@),
                Err(_) => self.encoded() is None,
            },
    ;
}

/// Whether `e` tells that `value` does not decode, in the codec's own words.
pub open spec fn undecodable<T: Codec>(value: JsonView, e: Error) -> bool {
    T::decoded(value) is None && exists|json: Json, text: String|
        json@ == value && #[trigger] call_ensures(T::decode, (&json,), Err(text))
            && is_message(e, text@)
}

/// Whether `e` tells that `result` has no JSON form, in the codec's own words.
pub open spec fn unencodable<T: Codec>(result: T, e: Error) -> bool {
    result.encoded() is None && exists|text: String| #[trigger]
        call_ensures(T::encode, (&result,), Err(text)) && is_message(e, text@)
}

} // verus!
