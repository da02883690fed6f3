//! Aggregators: how an event of one kind folds into an aggregate of one type.

use std::marker::PhantomData;

use vstd::prelude::*;

use crate::aggregate::{Aggregate, Apply};
use crate::codec::Codec;
use crate::event::Event;
use crate::json::{Json, JsonView};

verus! {

/// The functions of one aggregator over a common state type.
pub trait FoldFns {
    type State;

    /// The id of the aggregate a payload folds into; `None` where it names none
    /// or does not decode.
    spec fn extracted(&self, payload: JsonView) -> Option<u128>;

    /// The state after a payload, or `None` where the payload cannot be applied.
    spec fn applied(&self, state: Self::State, payload: JsonView) -> Option<Self::State>;

    /// The state before any event.
    spec fn initial(&self) -> Self::State;

    spec fn serialized(&self, state: Self::State) -> Option<JsonView>;

    spec fn deserialized(&self, value: JsonView) -> Option<Self::State>;

    fn extract_id_from_json(&self, payload: &Json) -> (id: Option<u128>)
        ensures
            id == self.extracted(payload@),
    ;

    /// Applies a payload to a state. Where that fails the state is no longer
    /// of use.
    fn apply_to(&self, state: &mut Self::State, data: &Json) -> (r: Result<(), String>)
        ensures
            match r {
                Ok(()) => self.applied(*old(state), data@) == Some(*final(state)),
                Err(_) => self.applied(*old(state), data@) is None,
            },
    ;

    fn clone_state(&self, state: &Self::State) -> (r: Self::State)
        ensures
            r == *state,
    ;

    fn default_state(&self) -> (r: Self::State)
        ensures
            r == self.initial(),
    ;

    fn serialize_state(&self, state: &Self::State) -> (r: Result<Json, String>)
        ensures
            match r {
                Ok(json) => self.serialized(*state) == Some(json@),
                Err(_) => self.serialized(*state) is None,
            },
    ;

    fn deserialize_state(&self, value: &Json) -> (r: Result<Self::State, String>)
        ensures
            match r {
                Ok(state) => self.deserialized(value@) == Some(state),
                Err(_) => self.deserialized(value@) is None,
            },
    ;

    /// A copy of the functions, for another registry.
    fn copy_fns(&self) -> (r: Self) where Self: Sized
        ensures
            r == *self,
    ;
}

/// An id, or the wish to skip the event.
pub trait AggregatorIdValue: Sized {
    spec fn as_aggregator_id(self) -> Option<u128>;

    fn into_aggregator_id(self) -> (id: Option<u128>)
        ensures
            id == self.as_aggregator_id(),
    ;
}

impl AggregatorIdValue for u128 {
    open spec fn as_aggregator_id(self) -> Option<u128> {
        Some(self)
    }

    fn into_aggregator_id(self) -> (id: Option<u128>) {
        Some(self)
    }
}

impl AggregatorIdValue for Option<u128> {
    open spec fn as_aggregator_id(self) -> Option<u128> {
        self
    }

    fn into_aggregator_id(self) -> (id: Option<u128>) {
        self
    }
}

/// How an aggregator finds the aggregate an event folds into.
pub trait IdFn<F> {
    spec fn id_of(&self, fact: F) -> Option<u128>;

    fn id(&self, fact: &F) -> (id: Option<u128>)
        ensures
            id == self.id_of(*fact),
    ;

    fn copy_fn(&self) -> (r: Self) where Self: Sized
        ensures
            r == *self,
    ;
}

/// The event's own subject id.
pub struct BySubject;

impl<F: Event> IdFn<F> for BySubject {
    open spec fn id_of(&self, fact: F) -> Option<u128> {
        Some(fact.subject_of())
    }

    fn id(&self, fact: &F) -> (id: Option<u128>) {
        fact.subject_id().into_aggregator_id()
    }

    fn copy_fn(&self) -> (r: Self) {
        BySubject
    }
}

/// The fold of events `F` into aggregates `A`, found by `I`.
pub struct TypedFold<A, F, I> {
    id_fn: I,
    marker: PhantomData<(A, F)>,
}

impl<A, F, I> TypedFold<A, F, I> {
    pub closed spec fn id_fn(&self) -> I {
        self.id_fn
    }
}

impl<A: Aggregate + Apply<F> + Codec, F: Event, I: IdFn<F>> FoldFns for TypedFold<A, F, I> {
    type State = A;

    open spec fn extracted(&self, payload: JsonView) -> Option<u128> {
        match F::decoded(payload) {
            Some(fact) => self.id_fn().id_of(fact),
            None => None,
        }
    }

    open spec fn applied(&self, state: A, payload: JsonView) -> Option<A> {
        match F::decoded(payload) {
            Some(fact) => Some(Apply::<F>::applied(&state, fact)),
            None => None,
        }
    }

    open spec fn initial(&self) -> A {
        A::initial()
    }

    open spec fn serialized(&self, state: A) -> Option<JsonView> {
        state.encoded()
    }

    open spec fn deserialized(&self, value: JsonView) -> Option<A> {
        A::decoded(value)
    }

    fn extract_id_from_json(&self, payload: &Json) -> (id: Option<u128>) {
        match F::decode(payload) {
            Ok(fact) => self.id_fn.id(&fact),
            Err(_) => None,
        }
    }

    /// A payload that does not decode is refused in the codec's own words.
    fn apply_to(&self, state: &mut A, data: &Json) -> (r: Result<(), String>)
        ensures
            r matches Err(text) ==> call_ensures(F::decode, (data,), Err(text)),
    {
        match F::decode(data) {
            Ok(fact) => {
                Apply::<F>::apply(state, &fact);
                Ok(())
            },
            Err(e) => Err(e),
        }
    }

    fn clone_state(&self, state: &A) -> (r: A) {
        state.copy_state()
    }

    fn default_state(&self) -> (r: A) {
        A::initial_state()
    }

    fn serialize_state(&self, state: &A) -> (r: Result<Json, String>) {
        state.encode()
    }

    fn deserialize_state(&self, value: &Json) -> (r: Result<A, String>) {
        A::decode(value)
    }

    fn copy_fns(&self) -> (r: Self) {
        TypedFold { id_fn: self.id_fn.copy_fn(), marker: PhantomData }
    }
}

/// One registered fold: the event kind it takes, the aggregate type it builds,
/// and the functions that do so.
pub struct Aggregator<B> {
    /// The event kind, matched exactly.
    pub event_prefix: String,
    /// The aggregate type.
    pub aggregate_type: String,
    /// The category of the stream the aggregate restores from. Empty: restore
    /// is disabled and the aggregate fans in.
    pub subject: String,
    /// Whether the event kind is closed to plain emits.
    pub invariant: bool,
    /// The category of the stream that holds the events.
    pub event_subject: String,
    /// Whether the id is found by something other than the subject id.
    pub custom_id: bool,
    pub fns: B,
}

/// What an aggregator is, as mathematics.
pub struct AggregatorView<B> {
    pub event_prefix: Seq<char>,
    pub aggregate_type: Seq<char>,
    pub subject: Seq<char>,
    pub invariant: bool,
    pub event_subject: Seq<char>,
    pub custom_id: bool,
    pub fns: B,
}

impl<B> View for Aggregator<B> {
    type V = AggregatorView<B>;

    open spec fn view(&self) -> AggregatorView<B> {
        AggregatorView {
            event_prefix: self.event_prefix@,
            aggregate_type: self.aggregate_type@,
            subject: self.subject@,
            invariant: self.invariant,
            event_subject: self.event_subject@,
            custom_id: self.custom_id,
            fns: self.fns,
        }
    }
}

impl<B: FoldFns> Aggregator<B> {
    /// A copy of the aggregator.
    pub fn copy(&self) -> (r: Self)
        ensures
            r@ == self@,
    {
        Aggregator {
            event_prefix: self.event_prefix.clone(),
            aggregate_type: self.aggregate_type.clone(),
            subject: self.subject.clone(),
            invariant: self.invariant,
            event_subject: self.event_subject.clone(),
            custom_id: self.custom_id,
            fns: self.fns.copy_fns(),
        }
    }
}

impl<A: Aggregate + Apply<F> + Codec, F: Event> Aggregator<TypedFold<A, F, BySubject>> {
    /// Folds events `F` into the aggregate `A` of their own subject.
    pub fn for_type() -> (agg: Self)
        ensures
            agg@ == typed_view::<A, F, BySubject>(agg@.fns, false),
            agg@.fns.id_fn() == BySubject,
    {
        let mut agg = Aggregator::<TypedFold<A, F, BySubject>>::for_type_with_id_fn(BySubject);
        agg.custom_id = false;
        agg
    }
}

/// The aggregator that `A`, `F` and a way to find ids determine.
pub open spec fn typed_view<A: Aggregate, F: Event, I>(
    fns: TypedFold<A, F, I>,
    custom_id: bool,
) -> AggregatorView<TypedFold<A, F, I>> {
    AggregatorView {
        event_prefix: F::NAME@,
        aggregate_type: A::NAME@,
        subject: A::SUBJECT@,
        invariant: A::INVARIANT,
        event_subject: F::SUBJECT@,
        custom_id,
        fns,
    }
}

impl<A: Aggregate + Apply<F> + Codec, F: Event, I: IdFn<F>> Aggregator<TypedFold<A, F, I>> {
    /// Folds events `F` into the aggregate `A` that `id_fn` finds.
    pub fn for_type_with_id_fn(id_fn: I) -> (agg: Self)
        ensures
            agg@ == typed_view::<A, F, I>(agg@.fns, true),
            agg@.fns.id_fn() == id_fn,
    {
        Aggregator {
            event_prefix: F::NAME.to_owned(),
            aggregate_type: A::NAME.to_owned(),
            subject: A::SUBJECT.to_owned(),
            invariant: A::INVARIANT,
            event_subject: F::SUBJECT.to_owned(),
            custom_id: true,
            fns: TypedFold { id_fn, marker: PhantomData },
        }
    }
}

/// A typed fold is the aggregate's own: a payload that decodes to a fact is
/// applied as the aggregate applies that fact, and goes to the aggregate that
/// the fact names; one that does not decode is refused and names none. States
/// start as the aggregate starts, and have the aggregate's JSON form.
pub proof fn law_typed_folds_are_the_aggregates_own<
    A: Aggregate + Apply<F> + Codec,
    F: Event,
    I: IdFn<F>,
>(fns: TypedFold<A, F, I>, state: A, payload: JsonView)
    ensures
        match F::decoded(payload) {
            Some(fact) => fns.applied(state, payload) == Some(Apply::<F>::applied(&state, fact))
                && fns.extracted(payload) == fns.id_fn().id_of(fact),
            None => fns.applied(state, payload) is None && fns.extracted(payload) is None,
        },
        fns.initial() == A::initial(),
        fns.serialized(state) == state.encoded(),
        fns.deserialized(payload) == A::decoded(payload),
{
}

/// An aggregator over a type goes by the names of that type and of its events:
/// it folds the events' kind, out of their stream, into the aggregate's type,
/// restores from the aggregate's stream, and closes the kind exactly where the
/// aggregate declares so. Without a way of its own to find ids it goes by the
/// events' subject, and says so.
pub proof fn law_aggregators_go_by_their_types<
    A: Aggregate + Apply<F> + Codec,
    F: Event,
    I: IdFn<F>,
>(
    id_fn: I,
    plain: Aggregator<TypedFold<A, F, BySubject>>,
    custom: Aggregator<TypedFold<A, F, I>>,
    payload: JsonView,
    fact: F,
)
    requires
        call_ensures(Aggregator::<TypedFold<A, F, BySubject>>::for_type, (), plain),
        call_ensures(Aggregator::<TypedFold<A, F, I>>::for_type_with_id_fn, (id_fn,), custom),
        F::decoded(payload) == Some(fact),
    ensures
        plain.event_prefix@ == F::NAME@,
        plain.event_subject@ == F::SUBJECT@,
        plain.aggregate_type@ == A::NAME@,
        plain.subject@ == A::SUBJECT@,
        plain.invariant == A::INVARIANT,
        !plain.custom_id,
        plain.fns.extracted(payload) == Some(fact.subject_of()),
        custom.event_prefix@ == F::NAME@,
        custom.event_subject@ == F::SUBJECT@,
        custom.aggregate_type@ == A::NAME@,
        custom.subject@ == A::SUBJECT@,
        custom.invariant == A::INVARIANT,
        custom.custom_id,
        custom.fns.extracted(payload) == id_fn.id_of(fact),
{
}

/// A copy is what it was copied from.
pub proof fn law_copies_fold_alike<B: FoldFns>(agg: &Aggregator<B>, copy: Aggregator<B>)
    requires
        call_ensures(Aggregator::<B>::copy, (agg,), copy),
    ensures
        copy.event_prefix@ == agg.event_prefix@,
        copy.aggregate_type@ == agg.aggregate_type@,
        copy.subject@ == agg.subject@,
        copy.invariant == agg.invariant,
        copy.event_subject@ == agg.event_subject@,
        copy.custom_id == agg.custom_id,
        copy.fns == agg.fns,
{
    assert(copy@ == agg@);
}

} // verus!
