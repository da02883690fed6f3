//! The context that consumer bodies work with.
//!
//! A body reaches the world only through its context, and every door is
//! deterministic or memoized: identities are derived from the consumer, the
//! trigger and a label, time is the trigger's own, and effects are remembered.

use std::collections::HashSet;
use vstd::prelude::*;
use vstd::string::StrSliceExecFns;
use vstd::utf8::encode_utf8;

use crate::aggregator::FoldFns;
use crate::clock::{Clock, SystemClock};
use crate::codec::Codec;
use crate::effect_store::{
    keep_fails, left_by_failure, recall_fails, remember, remember_fails, EffectKey, EffectStore,
    Effects,
};
use crate::failure::{domain, Error, ErrorClass, Link};
use crate::fold_on_read::{
    custom_id_text, feeds, first_custom, fold_bounded_start, resumed, resumes, unread, BoundedFold,
    FoldOnReadCache,
};
use crate::ids::{id_bytes, id_named, id_to_bytes, named_id};
use crate::json::{Json, JsonView};
use crate::registry::{first_of_type, AggregatorRegistry};
use crate::text::{listed, same};
use crate::transitions::{prev_key, state_key};
use crate::types::{LogCursor, Metadata, Timestamp};

verus! {

/// The namespace of derived identities.
pub const NS_DERIVED_ID: u128 = 0x9c1a2b77_415d_4e02_8f66_0de95a33701b;

/// The name under which an identity is derived: the consumer, the trigger's
/// id and the label, with NUL bytes between them.
pub open spec fn derived_name(consumer: Seq<char>, event_id: u128, label: Seq<char>) -> Seq<u8> {
    encode_utf8(consumer) + seq![0u8] + id_bytes(event_id) + seq![0u8] + encode_utf8(label)
}

/// The identity that a label derives.
pub open spec fn derived_id(consumer: Seq<char>, event_id: u128, label: Seq<char>) -> u128 {
    named_id(NS_DERIVED_ID, derived_name(consumer, event_id, label))
}

/// How grave a log entry is.
#[derive(Clone, Copy, Debug, PartialEq, Eq, Structural)]
pub enum LogLevel {
    Debug,
    Info,
    Warn,
    Error,
}

/// An entry of an attempt's log.
#[derive(Debug)]
pub struct LogEntry {
    pub level: LogLevel,
    pub message: String,
    pub data: Option<Json>,
    pub timestamp: Timestamp,
}

/// A claimed label: what it was claimed for, and the label.
#[derive(Debug)]
pub struct Label {
    pub kind: String,
    pub label: String,
}

/// The claimed labels, in order.
pub open spec fn label_views(labels: Seq<Label>) -> Seq<(Seq<char>, Seq<char>)> {
    Seq::new(labels.len(), |i: int| (labels[i].kind@, labels[i].label@))
}

/// Where a body reads aggregate state from.
pub enum StateSource<'a, B: FoldFns> {
    /// No aggregators are wired.
    Unwired,
    /// The registry that was folded before the body runs.
    Registry(&'a AggregatorRegistry<B>),
    /// The subject's history up to the trigger's position.
    FoldOnRead { registry: &'a AggregatorRegistry<B>, bound: LogCursor },
}

/// The states before and after the current event.
pub struct AggregateState<S> {
    pub prev: S,
    pub curr: S,
}

/// The answer to a state read: the states, or a fold that waits for its
/// streams to be read.
pub enum StateRead<S> {
    Ready(AggregateState<S>),
    Folding(BoundedFold<S>),
}

/// The context of one invocation.
pub struct Ctx<'a, B: FoldFns, C: EffectStore> {
    pub event_id: u128,
    pub log_position: LogCursor,
    pub occurred_at: Timestamp,
    pub workflow_id: u128,
    pub metadata: &'a Metadata,
    /// The consuming body's name.
    pub consumer: &'a str,
    /// The labels claimed in this attempt; absent outside an attempt, where
    /// duplicates are not detected.
    pub labels: Option<Vec<Label>>,
    pub state: StateSource<'a, B>,
    /// The attempt's log; absent outside a reactor body.
    pub logs: Option<Vec<LogEntry>>,
    /// The memo of effects; absent in bodies that may have none.
    pub effect_store: Option<C>,
    /// The workflows that were cancelled.
    pub cancelled_workflows: Option<&'a HashSet<u128>>,
    /// Whether the body asked for cancellation, where that is recorded.
    pub fence_consulted: Option<bool>,
}

/// The text of a duplicate label.
pub open spec fn duplicate_text(kind: Seq<char>, label: Seq<char>) -> Seq<char> {
    "duplicate ctx."@ + kind + "(\""@ + label
        + "\") in one reaction — each call would silently yield the same result; give each identity/effect its own label"@
}

fn duplicate_message(kind: &str, label: &str) -> (text: String)
    ensures
        text@ == duplicate_text(kind@, label@),
{
    let mut text = "duplicate ctx.".to_owned();
    text.append(kind);
    text.append("(\"");
    text.append(label);
    text.append(
        "\") in one reaction — each call would silently yield the same result; give each identity/effect its own label",
    );
    text
}

/// Whether an error is the domain error of a duplicate label.
pub open spec fn is_duplicate_error(e: Error, kind: Seq<char>, label: Seq<char>) -> bool {
    e.chain() == seq![
        Link { display: duplicate_text(kind, label), class: Some(ErrorClass::Domain) },
        Link { display: duplicate_text(kind, label), class: None },
    ]
}

/// Whether a label is claimed.
pub open spec fn claimed(
    labels: Option<Seq<(Seq<char>, Seq<char>)>>,
    kind: Seq<char>,
    label: Seq<char>,
) -> bool {
    match labels {
        Some(list) => list.contains((kind, label)),
        None => false,
    }
}

/// The labels with one more claimed.
pub open spec fn with_claim(
    labels: Option<Seq<(Seq<char>, Seq<char>)>>,
    kind: Seq<char>,
    label: Seq<char>,
) -> Option<Seq<(Seq<char>, Seq<char>)>> {
    match labels {
        Some(list) => Some(list.push((kind, label))),
        None => None,
    }
}

/// The labels after the first `n` of a list were claimed in order.
pub open spec fn with_claims(
    labels: Option<Seq<(Seq<char>, Seq<char>)>>,
    kind: Seq<char>,
    wanted: Seq<Seq<char>>,
    n: nat,
) -> Option<Seq<(Seq<char>, Seq<char>)>>
    decreases n,
{
    if n == 0 {
        labels
    } else {
        with_claim(with_claims(labels, kind, wanted, (n - 1) as nat), kind, wanted[n - 1])
    }
}

/// The first `n` labels of a list can be claimed one after the other.
pub open spec fn claimable(
    labels: Option<Seq<(Seq<char>, Seq<char>)>>,
    kind: Seq<char>,
    wanted: Seq<Seq<char>>,
    n: nat,
) -> bool {
    forall|i: int|
        0 <= i < n ==> !claimed(
            #[trigger] with_claims(labels, kind, wanted, i as nat),
            kind,
            wanted[i],
        )
}

/// The labels of a list of effects.
pub open spec fn effect_labels<F>(effects: Seq<(&str, F)>) -> Seq<Seq<char>> {
    Seq::new(effects.len(), |i: int| effects[i].0@)
}

/// Whether a label is in a list.
fn holds_label(labels: &Vec<Label>, kind: &str, label: &str) -> (held: bool)
    ensures
        held == label_views(labels@).contains((kind@, label@)),
{
    let mut i: usize = 0;
    while i < labels.len()
        invariant
            i <= labels@.len(),
            forall|j: int| 0 <= j < i ==> label_views(labels@)[j] != (kind@, label@),
        decreases labels@.len() - i,
    {
        if same(labels[i].kind.as_str(), kind) && same(labels[i].label.as_str(), label) {
            assert(label_views(labels@)[i as int] == (kind@, label@));
            return true;
        }
        i += 1;
    }
    false
}

impl<'a, B: FoldFns, C: EffectStore> Ctx<'a, B, C> {
    /// The claimed labels.
    pub open spec fn claims(&self) -> Option<Seq<(Seq<char>, Seq<char>)>> {
        match self.labels {
            Some(list) => Some(label_views(list@)),
            None => None,
        }
    }

    /// All but the labels, the logs, the memo and the mark of the fence.
    pub open spec fn same_trigger(&self, other: &Self) -> bool {
        self.event_id == other.event_id && self.log_position == other.log_position
            && self.occurred_at == other.occurred_at && self.workflow_id == other.workflow_id
            && self.metadata == other.metadata && self.consumer == other.consumer && self.state
            == other.state && self.cancelled_workflows == other.cancelled_workflows
    }

    /// Whether the trigger's workflow was cancelled. That it was asked is
    /// recorded, whatever the answer.
    pub fn is_workflow_cancelled(&mut self) -> (cancelled: bool)
        ensures
            cancelled == (match old(self).cancelled_workflows {
                Some(fence) => fence@.contains(old(self).workflow_id),
                None => false,
            }),
            final(self).fence_consulted == (match old(self).fence_consulted {
                Some(_) => Some(true),
                None => None,
            }),
            final(self).same_trigger(old(self)),
            final(self).labels == old(self).labels,
            final(self).logs == old(self).logs,
            final(self).effect_store == old(self).effect_store,
    {
        broadcast use vstd::std_specs::hash::group_hash_axioms;

        if self.fence_consulted.is_some() {
            self.fence_consulted = Some(true);
        }
        match self.cancelled_workflows {
            Some(fence) => fence.contains(&self.workflow_id),
            None => false,
        }
    }

    /// The trigger's recorded time.
    pub fn time(&self) -> (at: Timestamp)
        ensures
            at == self.occurred_at,
    {
        self.occurred_at
    }

    /// The store of effects, if there is one.
    pub fn effect_store(&self) -> (store: Option<&C>)
        ensures
            match store {
                Some(store) => self.effect_store == Some(*store),
                None => self.effect_store is None,
            },
    {
        self.effect_store.as_ref()
    }

    /// Claims a label. A label that was claimed for the same purpose is a
    /// domain error.
    fn claim_label(&mut self, kind: &str, label: &str) -> (r: Result<(), Error>)
        ensures
            final(self).same_trigger(old(self)),
            final(self).logs == old(self).logs,
            final(self).effect_store == old(self).effect_store,
            final(self).fence_consulted == old(self).fence_consulted,
            match r {
                Ok(()) => !claimed(old(self).claims(), kind@, label@) && final(self).claims()
                    == with_claim(old(self).claims(), kind@, label@),
                Err(e) => claimed(old(self).claims(), kind@, label@) && is_duplicate_error(
                    e,
                    kind@,
                    label@,
                ) && final(self).labels == old(self).labels,
            },
    {
        match &self.labels {
            Some(labels) => {
                if holds_label(labels, kind, label) {
                    let e = domain(Error::Message(duplicate_message(kind, label)));
                    assert(e.chain() =~= seq![
                        Link {
                            display: duplicate_text(kind@, label@),
                            class: Some(ErrorClass::Domain),
                        },
                        Link { display: duplicate_text(kind@, label@), class: None },
                    ]);
                    return Err(e);
                }
            },
            None => {},
        }
        if let Some(labels) = &mut self.labels {
            let ghost was = labels@;
            labels.push(Label { kind: kind.to_owned(), label: label.to_owned() });
            assert(label_views(labels@) =~= label_views(was).push((kind@, label@)));
        }
        Ok(())
    }

    /// Mints an identity from the consumer, the trigger and a label. The same
    /// trigger, delivered again, mints the same one. A label used twice in one
    /// attempt is a domain error.
    pub fn derive_id(&mut self, label: &str) -> (r: Result<u128, Error>)
        ensures
            final(self).same_trigger(old(self)),
            final(self).logs == old(self).logs,
            final(self).effect_store == old(self).effect_store,
            final(self).fence_consulted == old(self).fence_consulted,
            match r {
                Ok(id) => !claimed(old(self).claims(), "derive_id"@, label@) && id == derived_id(
                    old(self).consumer@,
                    old(self).event_id,
                    label@,
                ) && final(self).claims() == with_claim(old(self).claims(), "derive_id"@, label@),
                Err(e) => claimed(old(self).claims(), "derive_id"@, label@) && is_duplicate_error(
                    e,
                    "derive_id"@,
                    label@,
                ) && final(self).labels == old(self).labels,
            },
    {
        match self.claim_label("derive_id", label) {
            Ok(()) => {},
            Err(e) => {
                return Err(e);
            },
        }
        let mut name: Vec<u8> = self.consumer.as_bytes_vec();
        name.push(0);
        let mut trigger = id_to_bytes(self.event_id);
        name.append(&mut trigger);
        name.push(0);
        let mut tail = label.as_bytes_vec();
        name.append(&mut tail);
        proof {
            assert(name@ =~= derived_name(self.consumer@, self.event_id, label@));
        }
        Ok(id_named(NS_DERIVED_ID, name.as_slice()))
    }

    /// Adds an entry to the attempt's log.
    pub fn log(&mut self, level: LogLevel, message: &str)
        ensures
            final(self).same_trigger(old(self)),
            final(self).labels == old(self).labels,
            final(self).effect_store == old(self).effect_store,
            final(self).fence_consulted == old(self).fence_consulted,
            logged(old(self).logs, final(self).logs, level, message@, None),
    {
        self.log_with_data(level, message, None);
    }

    /// Adds an entry with data to the attempt's log. Outside a reactor body it
    /// does nothing.
    pub fn log_with_data(&mut self, level: LogLevel, message: &str, data: Option<Json>)
        ensures
            final(self).same_trigger(old(self)),
            final(self).labels == old(self).labels,
            final(self).effect_store == old(self).effect_store,
            final(self).fence_consulted == old(self).fence_consulted,
            logged(old(self).logs, final(self).logs, level, message@, data),
    {
        if let Some(sink) = &mut self.logs {
            let timestamp = SystemClock.now();
            let ghost was = sink@;
            sink.push(LogEntry { level, message: message.to_owned(), data, timestamp });
            assert(sink@.drop_last() =~= was);
        }
    }

    /// Reads the state of an aggregate around the current event. From a
    /// registry the answer is there at once; a fold on read first names the
    /// streams it needs.
    pub fn state_of(
        &self,
        aggregate_type: &str,
        id: u128,
        cache: &mut FoldOnReadCache<B::State>,
    ) -> (r: Result<StateRead<B::State>, Error>)
        requires
            match self.state {
                StateSource::Unwired => false,
                StateSource::Registry(registry) => registry.wf() && first_of_type(
                    registry.aggs(),
                    aggregate_type@,
                ) is Some,
                StateSource::FoldOnRead { registry, .. } => first_of_type(
                    registry.aggs(),
                    aggregate_type@,
                ) is Some,
            },
            old(cache).wf(),
        ensures
            final(cache).wf(),
            match self.state {
                StateSource::Unwired => true,
                StateSource::Registry(registry) => final(cache)@ == old(cache)@ && (r matches Ok(
                    StateRead::Ready(state),
                ) && (state.prev, state.curr) == crate::registry::transition_of(
                    registry.aggs(),
                    registry.table(),
                    aggregate_type@,
                    id,
                )),
                StateSource::FoldOnRead { registry, bound } => match first_custom(
                    registry.aggs(),
                    aggregate_type@,
                    registry.aggs().len(),
                ) {
                    Some(i) => r matches Err(Error::Message(text)) && text@ == custom_id_text(
                        aggregate_type@,
                        registry.aggs()[i].event_prefix,
                    ) && final(cache)@ == old(cache)@,
                    None => r matches Ok(StateRead::Folding(fold)) && fold.wf()
                        && fold.aggregate_type() == aggregate_type@ && fold.id() == id
                        && fold.bound() == bound.0 && (forall|c: Seq<char>| #[trigger]
                        listed(fold.streams(), c) <==> feeds(registry.aggs(), aggregate_type@, c))
                        && (if resumes(old(cache)@, (aggregate_type@, id), bound.0) {
                        fold.from() == old(cache)@[(aggregate_type@, id)] && fold.cacheable()
                            && final(cache)@ == old(cache)@.remove((aggregate_type@, id))
                    } else {
                        resumed(fold.from()) == unread(registry.aggs(), aggregate_type@)
                            && fold.cacheable() == !old(cache)@.contains_key((aggregate_type@, id))
                            && final(cache)@ == old(cache)@
                    }),
                },
            },
    {
        match &self.state {
            StateSource::Unwired => {
                assert(false);
                Err(Error::msg("no aggregators were registered"))
            },
            StateSource::Registry(registry) => {
                let (prev, curr) = registry.get_transition(aggregate_type, id);
                Ok(StateRead::Ready(AggregateState { prev, curr }))
            },
            StateSource::FoldOnRead { registry, bound } => match fold_bounded_start(
                registry,
                aggregate_type,
                id,
                *bound,
                cache,
            ) {
                Ok(fold) => Ok(StateRead::Folding(fold)),
                Err(e) => Err(e),
            },
        }
    }

    /// Memoizes a computation under the consumer, the trigger and a label. A
    /// label used twice in one attempt is a domain error, and nothing is
    /// computed.
    pub fn effect<F: FnOnce() -> Result<T, Error>, T: Codec>(
        &mut self,
        label: &str,
        compute: F,
    ) -> (r: Result<T, Error>)
        requires
            old(self).effect_store matches Some(store) && store.valid(),
            compute.requires(()),
        ensures
            final(self).same_trigger(old(self)),
            final(self).logs == old(self).logs,
            final(self).fence_consulted == old(self).fence_consulted,
            final(self).effect_store matches Some(store) && store.valid(),
            claimed(old(self).claims(), "effect"@, label@) ==> (r matches Err(e)
                && is_duplicate_error(e, "effect"@, label@) && final(self).labels == old(self).labels
                && final(self).effect_store == old(self).effect_store),
            !claimed(old(self).claims(), "effect"@, label@) ==> final(self).claims() == with_claim(
                old(self).claims(),
                "effect"@,
                label@,
            ) && effect_outcome::<C, F, T>(
                old(self).effect_store->0,
                final(self).effect_store->0,
                (old(self).consumer@, old(self).event_id, label@),
                compute,
                r,
            ),
    {
        match self.claim_label("effect", label) {
            Ok(()) => {},
            Err(e) => {
                return Err(e);
            },
        }
        let key = EffectKey::new(self.consumer, self.event_id, label);
        match &mut self.effect_store {
            Some(store) => remember(store, &key, compute),
            None => Err(Error::msg("no effect store")),
        }
    }

    /// Claims labels for effects one after the other, before anything runs.
    /// The first duplicate is a domain error; those before it stay claimed.
    pub fn claim_effects(&mut self, labels: &Vec<&str>) -> (r: Result<(), Error>)
        ensures
            final(self).same_trigger(old(self)),
            final(self).logs == old(self).logs,
            final(self).effect_store == old(self).effect_store,
            final(self).fence_consulted == old(self).fence_consulted,
            ({
                let wanted = Seq::new(labels@.len(), |i: int| labels@[i]@);
                match r {
                    Ok(()) => claimable(old(self).claims(), "effect"@, wanted, wanted.len())
                        && final(self).claims() == with_claims(
                        old(self).claims(),
                        "effect"@,
                        wanted,
                        wanted.len(),
                    ),
                    Err(e) => exists|i: int|
                        {
                            &&& 0 <= i < wanted.len()
                            &&& claimable(old(self).claims(), "effect"@, wanted, i as nat)
                            &&& #[trigger] with_claims(
                                old(self).claims(),
                                "effect"@,
                                wanted,
                                i as nat,
                            ) == final(self).claims()
                            &&& claimed(final(self).claims(), "effect"@, wanted[i])
                            &&& is_duplicate_error(e, "effect"@, wanted[i])
                        },
                }
            }),
    {
        let ghost wanted = Seq::new(labels@.len(), |i: int| labels@[i]@);
        let ghost start = self.claims();
        let mut i: usize = 0;
        while i < labels.len()
            invariant
                i <= labels@.len(),
                wanted == Seq::new(labels@.len(), |i: int| labels@[i]@),
                start == old(self).claims(),
                self.same_trigger(old(self)),
                self.logs == old(self).logs,
                self.effect_store == old(self).effect_store,
                self.fence_consulted == old(self).fence_consulted,
                claimable(start, "effect"@, wanted, i as nat),
                self.claims() == with_claims(start, "effect"@, wanted, i as nat),
            decreases labels@.len() - i,
        {
            match self.claim_label("effect", labels[i]) {
                Ok(()) => {},
                Err(e) => {
                    proof {
                        let at = i as int;
                        assert(with_claims(start, "effect"@, wanted, at as nat) == self.claims());
                        assert(claimed(self.claims(), "effect"@, wanted[at]));
                        assert(is_duplicate_error(e, "effect"@, wanted[at]));
                    }
                    return Err(e);
                },
            }
            i += 1;
        }
        Ok(())
    }

    /// Memoizes several computations, each under its own label. All labels are
    /// claimed before anything runs; the results come in the order of the
    /// computations.
    pub fn effect_all<F: FnOnce() -> Result<T, Error>, T: Codec>(
        &mut self,
        effects: Vec<(&str, F)>,
    ) -> (r: Result<Vec<T>, Error>)
        requires
            old(self).effect_store matches Some(store) && store.valid(),
            forall|i: int| 0 <= i < effects@.len() ==> (#[trigger] effects@[i]).1.requires(()),
        ensures
            final(self).same_trigger(old(self)),
            final(self).logs == old(self).logs,
            final(self).fence_consulted == old(self).fence_consulted,
            final(self).effect_store matches Some(store) && store.valid(),
            ({
                let wanted = effect_labels(effects@);
                let fresh = claimable(old(self).claims(), "effect"@, wanted, wanted.len());
                let before = old(self).effect_store->0.effects();
                let after = final(self).effect_store->0.effects();
                let consumer = old(self).consumer@;
                let trigger = old(self).event_id;
                &&& !fresh ==> final(self).effect_store == old(self).effect_store && (r matches Err(
                    e,
                ) && exists|i: int|
                    {
                        &&& 0 <= i < wanted.len()
                        &&& claimable(old(self).claims(), "effect"@, wanted, i as nat)
                        &&& #[trigger] with_claims(
                            old(self).claims(),
                            "effect"@,
                            wanted,
                            i as nat,
                        ) == final(self).claims()
                        &&& claimed(final(self).claims(), "effect"@, wanted[i])
                        &&& is_duplicate_error(e, "effect"@, wanted[i])
                    })
                &&& fresh ==> final(self).claims() == with_claims(
                    old(self).claims(),
                    "effect"@,
                    wanted,
                    wanted.len(),
                )
                &&& r matches Ok(list) ==> {
                    &&& fresh
                    &&& list@.len() == wanted.len()
                    &&& ran::<F, T>(before, after, consumer, trigger, effects@, wanted.len() as int)
                    &&& forall|i: int|
                        0 <= i < list@.len() ==> remembered::<T>(
                            after,
                            (consumer, trigger, wanted[i]),
                            #[trigger] list@[i],
                        )
                    &&& old(self).labels is Some ==> forall|i: int|
                        0 <= i < list@.len() ==> own_result::<F, T>(
                            before,
                            after,
                            (consumer, trigger, #[trigger] wanted[i]),
                            effects@[i].1,
                        )
                }
                &&& fresh ==> (r matches Err(e) ==> exists|i: int, store: C|
                    {
                        &&& 0 <= i < wanted.len()
                        &&& store.valid()
                        &&& ran::<F, T>(before, store.effects(), consumer, trigger, effects@, i)
                        &&& #[trigger] effect_outcome::<C, F, T>(
                            store,
                            final(self).effect_store->0,
                            (consumer, trigger, wanted[i]),
                            effects@[i].1,
                            Err(e),
                        )
                    })
            }),
    {
        let ghost wanted = effect_labels(effects@);
        let ghost all = effects@;
        let ghost before = self.effect_store->0.effects();
        let mut labels: Vec<&str> = Vec::new();
        let mut i: usize = 0;
        while i < effects.len()
            invariant
                i <= effects@.len(),
                effects@ == all,
                labels@.len() == i,
                forall|j: int| 0 <= j < i ==> (#[trigger] labels@[j])@ == effects@[j].0@,
            decreases effects@.len() - i,
        {
            labels.push(effects[i].0);
            i += 1;
        }
        assert(Seq::new(labels@.len(), |i: int| labels@[i]@) =~= wanted);
        match self.claim_effects(&labels) {
            Ok(()) => {},
            Err(e) => {
                return Err(e);
            },
        }
        let ghost claims = self.claims();
        let mut rest = effects;
        let mut list: Vec<T> = Vec::new();
        assert(rest@ =~= all.skip(0));
        while rest.len() > 0
            invariant
                list@.len() + rest@.len() == all.len(),
                rest@ == all.skip(list@.len() as int),
                wanted == effect_labels(all),
                forall|i: int| 0 <= i < all.len() ==> (#[trigger] all[i]).1.requires(()),
                self.same_trigger(old(self)),
                self.logs == old(self).logs,
                self.fence_consulted == old(self).fence_consulted,
                self.claims() == claims,
                claimable(old(self).claims(), "effect"@, wanted, wanted.len()),
                claims == with_claims(old(self).claims(), "effect"@, wanted, wanted.len()),
                all == effects@,
                wanted == effect_labels(effects@),
                before == old(self).effect_store->0.effects(),
                self.effect_store matches Some(store) && store.valid(),
                ran::<F, T>(
                    before,
                    self.effect_store->0.effects(),
                    self.consumer@,
                    self.event_id,
                    all,
                    list@.len() as int,
                ),
                forall|i: int|
                    0 <= i < list@.len() ==> remembered::<T>(
                        self.effect_store->0.effects(),
                        (self.consumer@, self.event_id, wanted[i]),
                        #[trigger] list@[i],
                    ),
            decreases rest@.len(),
        {
            let ghost n = list@.len() as int;
            let ghost memo = self.effect_store->0;
            let ghost stored = memo.effects();
            assert(rest@[0] == all[n]);
            let (label, compute) = rest.remove(0);
            assert(rest@ =~= all.skip(n + 1));
            let key = EffectKey::new(self.consumer, self.event_id, label);
            let outcome = match &mut self.effect_store {
                Some(store) => remember(store, &key, compute),
                None => Err(Error::msg("no effect store")),
            };
            match outcome {
                Ok(value) => {
                    list.push(value);
                    proof {
                        let now = self.effect_store->0.effects();
                        assert(keeps(stored, now));
                        assert(key@ == (self.consumer@, self.event_id, wanted[n]));
                        if !stored.contains_key(key@) {
                            let result = choose|result: T|
                                {
                                    &&& #[trigger] compute.ensures((), Ok(result))
                                    &&& result.encoded() is Some
                                    &&& T::decoded(result.encoded()->0) == Some(value)
                                    &&& now == stored.insert(key@, result.encoded()->0)
                                };
                            assert(all[n].1.ensures((), Ok(result)));
                            assert(now[key@] == result.encoded()->0);
                        }
                        lemma_ran_on::<F, T>(
                            before,
                            stored,
                            now,
                            self.consumer@,
                            self.event_id,
                            all,
                            n,
                        );
                        assert forall|i: int| 0 <= i < list@.len() implies remembered::<T>(
                            now,
                            (self.consumer@, self.event_id, wanted[i]),
                            #[trigger] list@[i],
                        ) by {}
                    }
                },
                Err(e) => {
                    assert(key@ == (old(self).consumer@, old(self).event_id, wanted[n]));
                    assert(remember_fails(memo, key, all[n].1, e));
                    assert(effect_outcome::<C, F, T>(
                        memo,
                        self.effect_store->0,
                        (old(self).consumer@, old(self).event_id, wanted[n]),
                        effects@[n].1,
                        Err(e),
                    ));
                    return Err(e);
                },
            }
        }
        proof {
            if let Some(labels) = old(self).claims() {
                lemma_claimable_distinct(labels, "effect"@, wanted, wanted.len());
                let now = self.effect_store->0.effects();
                assert forall|i: int| 0 <= i < wanted.len() implies own_result::<F, T>(
                    before,
                    now,
                    (self.consumer@, self.event_id, #[trigger] wanted[i]),
                    all[i].1,
                ) by {
                    let key = (self.consumer@, self.event_id, wanted[i]);
                    if !before.contains_key(key) {
                        assert(stored_result::<F, T>(now, self.consumer@, self.event_id, all, i));
                        let (j, result) = choose|j: int, result: T|
                            {
                                &&& 0 <= j <= i
                                &&& first_use(all, j, i)
                                &&& #[trigger] all[j].1.ensures((), Ok(result))
                                &&& result.encoded() == Some(now[key])
                            };
                        assert(wanted[j] == wanted[i]);
                    }
                }
            }
        }
        Ok(list)
    }
}

/// The claims that can be made one after the other are all different.
proof fn lemma_claimable_distinct(
    labels: Seq<(Seq<char>, Seq<char>)>,
    kind: Seq<char>,
    wanted: Seq<Seq<char>>,
    n: nat,
)
    requires
        n <= wanted.len(),
        claimable(Some(labels), kind, wanted, n),
    ensures
        forall|i: int, j: int| 0 <= i < j < n ==> #[trigger] wanted[i] != #[trigger] wanted[j],
{
    assert forall|i: int, j: int| 0 <= i < j < n implies #[trigger] wanted[i]
        != #[trigger] wanted[j] by {
        lemma_claims_stay(labels, kind, wanted, i, j as nat);
        assert(!claimed(with_claims(Some(labels), kind, wanted, j as nat), kind, wanted[j]));
    }
}

proof fn lemma_claims_stay(
    labels: Seq<(Seq<char>, Seq<char>)>,
    kind: Seq<char>,
    wanted: Seq<Seq<char>>,
    i: int,
    n: nat,
)
    requires
        0 <= i < n <= wanted.len(),
    ensures
        with_claims(Some(labels), kind, wanted, n) is Some,
        claimed(with_claims(Some(labels), kind, wanted, n), kind, wanted[i]),
    decreases n,
{
    let m = (n - 1) as nat;
    if i < m {
        lemma_claims_stay(labels, kind, wanted, i, m);
        let before = with_claims(Some(labels), kind, wanted, m)->0;
        let at = choose|at: int| 0 <= at < before.len() && before[at] == (kind, wanted[i]);
        assert(before.push((kind, wanted[n - 1]))[at] == (kind, wanted[i]));
    } else {
        lemma_claims_are_some(labels, kind, wanted, m);
        let before = with_claims(Some(labels), kind, wanted, m)->0;
        assert(before.push((kind, wanted[i]))[before.len() as int] == (kind, wanted[i]));
    }
}

proof fn lemma_claims_are_some(
    labels: Seq<(Seq<char>, Seq<char>)>,
    kind: Seq<char>,
    wanted: Seq<Seq<char>>,
    n: nat,
)
    requires
        n <= wanted.len(),
    ensures
        with_claims(Some(labels), kind, wanted, n) is Some,
    decreases n,
{
    if n > 0 {
        lemma_claims_are_some(labels, kind, wanted, (n - 1) as nat);
    }
}

/// Whether the effect at `j` is the first with the label of the one at `i`.
pub open spec fn first_use<F>(effects: Seq<(&str, F)>, j: int, i: int) -> bool {
    effects[j].0@ == effects[i].0@ && forall|k: int|
        0 <= k < j ==> (#[trigger] effects[k]).0@ != effects[i].0@
}

/// Whether what is stored for the effect at `i` is what the computation of the
/// first effect with its label gave.
pub open spec fn stored_result<F: FnOnce() -> Result<T, Error>, T: Codec>(
    after: Effects,
    consumer: Seq<char>,
    trigger: u128,
    effects: Seq<(&str, F)>,
    i: int,
) -> bool {
    let key = (consumer, trigger, effects[i].0@);
    after.contains_key(key) && exists|j: int, result: T|
        {
            &&& 0 <= j <= i
            &&& first_use(effects, j, i)
            &&& #[trigger] effects[j].1.ensures((), Ok(result))
            &&& result.encoded() == Some(after[key])
        }
}

/// Whether a memo is what the first `n` effects left of one: all that was
/// stored stays, each of them is stored, and nothing else is.
pub open spec fn ran<F: FnOnce() -> Result<T, Error>, T: Codec>(
    before: Effects,
    after: Effects,
    consumer: Seq<char>,
    trigger: u128,
    effects: Seq<(&str, F)>,
    n: int,
) -> bool {
    &&& keeps(before, after)
    &&& forall|k: (Seq<char>, u128, Seq<char>)| #[trigger]
        after.contains_key(k) ==> before.contains_key(k) || exists|i: int|
            0 <= i < n && k == (consumer, trigger, (#[trigger] effects[i]).0@)
    &&& forall|i: int|
        0 <= i < n ==> before.contains_key((consumer, trigger, (#[trigger] effects[i]).0@))
            || stored_result::<F, T>(after, consumer, trigger, effects, i)
}

/// Whether a memo holds for a key what it held before, or else what a
/// computation gave.
pub open spec fn own_result<F: FnOnce() -> Result<T, Error>, T: Codec>(
    before: Effects,
    after: Effects,
    key: (Seq<char>, u128, Seq<char>),
    compute: F,
) -> bool {
    after.contains_key(key) && if before.contains_key(key) {
        after[key] == before[key]
    } else {
        exists|result: T| #[trigger] compute.ensures((), Ok(result)) && result.encoded() == Some(
            after[key],
        )
    }
}

/// One more effect ran.
proof fn lemma_ran_on<F: FnOnce() -> Result<T, Error>, T: Codec>(
    before: Effects,
    stored: Effects,
    now: Effects,
    consumer: Seq<char>,
    trigger: u128,
    effects: Seq<(&str, F)>,
    n: int,
)
    requires
        0 <= n < effects.len(),
        ran::<F, T>(before, stored, consumer, trigger, effects, n),
        ({
            let key = (consumer, trigger, effects[n].0@);
            if stored.contains_key(key) {
                now == stored
            } else {
                exists|result: T| #[trigger]
                    effects[n].1.ensures((), Ok(result)) && result.encoded() is Some && now
                        == stored.insert(key, result.encoded()->0)
            }
        }),
    ensures
        ran::<F, T>(before, now, consumer, trigger, effects, n + 1),
{
    let key = (consumer, trigger, effects[n].0@);
    assert forall|k: (Seq<char>, u128, Seq<char>)| #[trigger] now.contains_key(k) implies (
    before.contains_key(k) || exists|i: int|
        0 <= i < n + 1 && k == (consumer, trigger, (#[trigger] effects[i]).0@)) by {
        if k == key {
            assert(k == (consumer, trigger, effects[n].0@));
        } else {
            assert(stored.contains_key(k));
        }
    }
    assert forall|i: int| 0 <= i < n + 1 implies before.contains_key(
        (consumer, trigger, (#[trigger] effects[i]).0@),
    ) || stored_result::<F, T>(now, consumer, trigger, effects, i) by {
        let own = (consumer, trigger, effects[i].0@);
        if i < n {
            if !before.contains_key(own) {
                assert(stored_result::<F, T>(stored, consumer, trigger, effects, i));
                let (j, result) = choose|j: int, result: T|
                    {
                        &&& 0 <= j <= i
                        &&& first_use(effects, j, i)
                        &&& #[trigger] effects[j].1.ensures((), Ok(result))
                        &&& result.encoded() == Some(stored[own])
                    };
                assert(now[own] == stored[own]);
                assert(effects[j].1.ensures((), Ok(result)));
            }
        } else if !before.contains_key(own) {
            if stored.contains_key(key) {
                let m = choose|m: int|
                    0 <= m < n && key == (consumer, trigger, (#[trigger] effects[m]).0@);
                assert(stored_result::<F, T>(stored, consumer, trigger, effects, m));
                let (j, result) = choose|j: int, result: T|
                    {
                        &&& 0 <= j <= m
                        &&& first_use(effects, j, m)
                        &&& #[trigger] effects[j].1.ensures((), Ok(result))
                        &&& result.encoded() == Some(stored[own])
                    };
                assert(first_use(effects, j, n));
                assert(effects[j].1.ensures((), Ok(result)));
            } else {
                let result = choose|result: T| #[trigger]
                    effects[n].1.ensures((), Ok(result)) && result.encoded() is Some && now
                        == stored.insert(key, result.encoded()->0);
                assert forall|k: int| 0 <= k < n implies (#[trigger] effects[k]).0@
                    != effects[n].0@ by {
                    if effects[k].0@ == effects[n].0@ {
                        assert(before.contains_key((consumer, trigger, effects[k].0@))
                            || stored_result::<F, T>(stored, consumer, trigger, effects, k));
                    }
                }
                assert(first_use(effects, n, n));
                assert(effects[n].1.ensures((), Ok(result)));
            }
        }
    }
}

/// Whether the write of an effect's result may be what fails with `e`.
pub open spec fn write_fails<C: EffectStore, F: FnOnce() -> Result<T, Error>, T: Codec>(
    before: C,
    key: (Seq<char>, u128, Seq<char>),
    compute: F,
    e: Error,
) -> bool {
    exists|k: EffectKey| #[trigger] k@ == key && keep_fails::<C, F, T>(before, k, compute, e)
}

/// What an effect comes to: the stored result where there is one, else that of
/// its computation, which is then stored.
pub open spec fn effect_outcome<C: EffectStore, F: FnOnce() -> Result<T, Error>, T: Codec>(
    before: C,
    after: C,
    key: (Seq<char>, u128, Seq<char>),
    compute: F,
    r: Result<T, Error>,
) -> bool {
    match r {
        Ok(value) => if before.effects().contains_key(key) {
            after == before && T::decoded(before.effects()[key]) == Some(value)
        } else {
            exists|result: T|
                {
                    &&& #[trigger] compute.ensures((), Ok(result))
                    &&& result.encoded() is Some
                    &&& T::decoded(result.encoded()->0) == Some(value)
                    &&& after.effects() == before.effects().insert(key, result.encoded()->0)
                }
        },
        Err(e) => exists|k: EffectKey| #[trigger]
            k@ == key && remember_fails(before, k, compute, e) && left_by_failure(
                before,
                after,
                k,
                compute,
                e,
            ),
    }
}

/// No effect, whether it succeeds or fails, loses or changes what is stored,
/// unless the store's own write fails.
pub proof fn law_effects_keep_the_memo<C: EffectStore, F: FnOnce() -> Result<T, Error>, T: Codec>(
    before: C,
    after: C,
    key: (Seq<char>, u128, Seq<char>),
    compute: F,
    r: Result<T, Error>,
)
    requires
        effect_outcome(before, after, key, compute, r),
        r matches Err(e) ==> !write_fails::<C, F, T>(before, key, compute, e),
    ensures
        keeps(before.effects(), after.effects()),
{
}

/// A result once stored answers every later attempt, whichever effects ran or
/// failed in between, as long as they kept the memo: the computation is not run
/// again, nothing is written, and an error can only come of reading the store
/// or of decoding what it holds.
pub proof fn law_stored_effects_answer_retries<
    C: EffectStore,
    F: FnOnce() -> Result<T, Error>,
    T: Codec,
>(
    memos: Seq<Effects>,
    before: C,
    after: C,
    key: (Seq<char>, u128, Seq<char>),
    compute: F,
    r: Result<T, Error>,
)
    requires
        memos.len() > 0,
        memos[0].contains_key(key),
        forall|i: int| 0 <= i < memos.len() - 1 ==> keeps(#[trigger] memos[i], memos[i + 1]),
        before.effects() == memos.last(),
        effect_outcome(before, after, key, compute, r),
    ensures
        after == before,
        match r {
            Ok(value) => T::decoded(memos[0][key]) == Some(value),
            Err(e) => exists|k: EffectKey| #[trigger]
                k@ == key && recall_fails::<C, T>(before, k, e),
        },
{
    lemma_memos_keep(memos, key, memos.len() - 1);
}

proof fn lemma_memos_keep(
    memos: Seq<Effects>,
    key: (Seq<char>, u128, Seq<char>),
    n: int,
)
    requires
        0 <= n < memos.len(),
        memos[0].contains_key(key),
        forall|i: int| 0 <= i < memos.len() - 1 ==> keeps(#[trigger] memos[i], memos[i + 1]),
    ensures
        memos[n].contains_key(key),
        memos[n][key] == memos[0][key],
    decreases n,
{
    if n > 0 {
        lemma_memos_keep(memos, key, n - 1);
        assert(keeps(memos[n - 1], memos[n - 1 + 1]));
    }
}

/// Whether what is stored for an effect decodes to a value.
pub open spec fn remembered<T: Codec>(
    effects: Effects,
    key: (Seq<char>, u128, Seq<char>),
    value: T,
) -> bool {
    effects.contains_key(key) && T::decoded(effects[key]) == Some(value)
}

/// Whether every effect stored before is stored after, unchanged.
pub open spec fn keeps(
    before: Effects,
    after: Effects,
) -> bool {
    forall|k: (Seq<char>, u128, Seq<char>)| #[trigger]
        before.contains_key(k) ==> after.contains_key(k) && after[k] == before[k]
}

/// What logging adds to a log: an entry at its end, where there is a log.
pub open spec fn logged(
    before: Option<Vec<LogEntry>>,
    after: Option<Vec<LogEntry>>,
    level: LogLevel,
    message: Seq<char>,
    data: Option<Json>,
) -> bool {
    match before {
        Some(entries) => after matches Some(now) && now@.len() == entries@.len() + 1
            && now@.drop_last() == entries@ && now@.last().level == level && now@.last().message@
            == message && now@.last().data == data,
        None => after is None,
    }
}

/// Of one consumer, identities of different triggers or different labels have
/// different names, so only a collision of the hash could make them meet.
pub proof fn law_derived_names_differ(
    consumer: Seq<char>,
    trigger_a: u128,
    label_a: Seq<char>,
    trigger_b: u128,
    label_b: Seq<char>,
)
    ensures
        derived_name(consumer, trigger_a, label_a) == derived_name(consumer, trigger_b, label_b)
            <==> trigger_a == trigger_b && label_a == label_b,
{
    let a = derived_name(consumer, trigger_a, label_a);
    let b = derived_name(consumer, trigger_b, label_b);
    if a == b {
        let n = encode_utf8(consumer).len() as int;
        crate::ids::lemma_id_bytes(trigger_a, trigger_b);
        assert(a.subrange(n + 1, n + 17) =~= id_bytes(trigger_a));
        assert(b.subrange(n + 1, n + 17) =~= id_bytes(trigger_b));
        assert(a.skip(n + 18) =~= encode_utf8(label_a));
        assert(b.skip(n + 18) =~= encode_utf8(label_b));
        vstd::utf8::encode_utf8_decode_utf8(label_a);
        vstd::utf8::encode_utf8_decode_utf8(label_b);
    }
}

/// Whether the hash gives two different names the same derived identity.
pub open spec fn collide(a: Seq<u8>, b: Seq<u8>) -> bool {
    a != b && named_id(NS_DERIVED_ID, a) == named_id(NS_DERIVED_ID, b)
}

/// A label derives one identity per consumer and trigger, and another label
/// another one but for a collision of the hash. Deriving claims the label for
/// deriving alone: it cannot be derived again in the attempt, other labels can,
/// and it stays free for effects.
pub proof fn law_derived_ids_are_label_scoped(
    consumer: Seq<char>,
    trigger: u128,
    label: Seq<char>,
    other: Seq<char>,
    labels: Seq<(Seq<char>, Seq<char>)>,
)
    ensures
        derived_id(consumer, trigger, label) == derived_id(consumer, trigger, other) <==> label
            == other || collide(
            derived_name(consumer, trigger, label),
            derived_name(consumer, trigger, other),
        ),
        ({
            let after = with_claim(Some(labels), "derive_id"@, label);
            &&& claimed(after, "derive_id"@, other) <==> other == label || claimed(
                Some(labels),
                "derive_id"@,
                other,
            )
            &&& claimed(after, "effect"@, other) <==> claimed(Some(labels), "effect"@, other)
        }),
{
    law_derived_names_differ(consumer, trigger, label, trigger, other);
    reveal_strlit("derive_id");
    reveal_strlit("effect");
    let list = labels.push(("derive_id"@, label));
    assert("derive_id"@.len() != "effect"@.len());
    assert forall|x: (Seq<char>, Seq<char>)| #[trigger] list.contains(x) <==> x == (
        "derive_id"@,
        label,
    ) || labels.contains(x) by {
        if labels.contains(x) {
            let k = choose|k: int| 0 <= k < labels.len() && labels[k] == x;
            assert(list[k] == x);
        }
        assert(list[labels.len() as int] == ("derive_id"@, label));
    }
}

/// A body learns of cancellation exactly where its own workflow is among those
/// cancelled; that it asked is noted wherever asking is, and nothing else
/// changes.
pub proof fn law_cancellation_is_the_workflows_own<B: FoldFns, C: EffectStore>(
    ctx: &mut Ctx<B, C>,
    cancelled: bool,
)
    requires
        call_ensures(Ctx::<B, C>::is_workflow_cancelled, (ctx,), cancelled),
    ensures
        cancelled <==> (old(ctx).cancelled_workflows matches Some(fence) && fence@.contains(
            old(ctx).workflow_id,
        )),
        old(ctx).fence_consulted is Some ==> final(ctx).fence_consulted == Some(true),
        old(ctx).fence_consulted is None ==> final(ctx).fence_consulted is None,
        final(ctx).workflow_id == old(ctx).workflow_id,
        final(ctx).event_id == old(ctx).event_id,
        final(ctx).labels == old(ctx).labels,
        final(ctx).effect_store == old(ctx).effect_store,
{
}

/// A derived identity is the hash of the consumer's name, the trigger's id and
/// the label, with a NUL byte between them, under one fixed namespace. So two
/// bodies of one consumer on one trigger derive the same identity from one
/// label, whatever else their contexts hold.
pub proof fn law_derived_ids_are_reproducible<B: FoldFns, C: EffectStore>(
    first: &mut Ctx<B, C>,
    second: &mut Ctx<B, C>,
    label: &str,
    a: u128,
    b: u128,
)
    requires
        call_ensures(Ctx::<B, C>::derive_id, (first, label), Ok(a)),
        call_ensures(Ctx::<B, C>::derive_id, (second, label), Ok(b)),
        old(first).consumer@ == old(second).consumer@,
        old(first).event_id == old(second).event_id,
    ensures
        a == b,
        a == named_id(
            0x9c1a2b77_415d_4e02_8f66_0de95a33701b,
            encode_utf8(old(first).consumer@) + seq![0u8] + id_bytes(old(first).event_id)
                + seq![0u8] + encode_utf8(label@),
        ),
{
}

/// Within an attempt a label derives once: a second derivation is refused as a
/// domain error and claims nothing, while a label that was not derived before
/// is never refused. Outside an attempt none is.
pub proof fn law_labels_derive_once<B: FoldFns, C: EffectStore>(
    first: &mut Ctx<B, C>,
    second: &mut Ctx<B, C>,
    label: &str,
    other: &str,
    id: u128,
    r: Result<u128, Error>,
)
    requires
        call_ensures(Ctx::<B, C>::derive_id, (first, label), Ok(id)),
        call_ensures(Ctx::<B, C>::derive_id, (second, other), r),
        old(second).labels == final(first).labels,
    ensures
        old(first).labels is Some && other@ == label@ ==> (r matches Err(e)
            && e.chain()[0].class == Some(ErrorClass::Domain) && final(second).labels
            == old(second).labels),
        other@ != label@ ==> (r is Err <==> (old(first).labels matches Some(list) && exists|i: int|
            0 <= i < list@.len() && (#[trigger] list@[i]).kind@ == "derive_id"@ && list@[i].label@
                == other@)),
        old(first).labels is None ==> r is Ok,
{
    let before = old(first).claims();
    let after = final(first).claims();
    if let Some(list) = old(first).labels {
        let had = label_views(list@);
        let has = had.push(("derive_id"@, label@));
        assert(after == Some(has));
        assert(has[had.len() as int] == ("derive_id"@, label@));
        assert(old(second).claims() == after);
        assert(has.contains(("derive_id"@, label@)));
        if other@ != label@ {
            assert(has.contains(("derive_id"@, other@)) <==> had.contains(
                ("derive_id"@, other@),
            )) by {
                if had.contains(("derive_id"@, other@)) {
                    let i = choose|i: int| 0 <= i < had.len() && had[i] == ("derive_id"@, other@);
                    assert(has[i] == ("derive_id"@, other@));
                }
                if has.contains(("derive_id"@, other@)) {
                    let i = choose|i: int| 0 <= i < has.len() && has[i] == ("derive_id"@, other@);
                    assert(i < had.len());
                    assert(had[i] == has[i]);
                }
            }
            if had.contains(("derive_id"@, other@)) {
                let i = choose|i: int| 0 <= i < had.len() && had[i] == ("derive_id"@, other@);
                assert(list@[i].kind@ == "derive_id"@);
            }
            if exists|i: int|
                0 <= i < list@.len() && (#[trigger] list@[i]).kind@ == "derive_id"@
                    && list@[i].label@ == other@ {
                let i = choose|i: int|
                    0 <= i < list@.len() && (#[trigger] list@[i]).kind@ == "derive_id"@
                        && list@[i].label@ == other@;
                assert(had[i] == ("derive_id"@, other@));
            }
        }
    }
}

/// A log grows by exactly what was logged, at its end; where there is no log
/// nothing is made of it.
pub proof fn law_logs_grow_by_their_entries<B: FoldFns, C: EffectStore>(
    ctx: &mut Ctx<B, C>,
    level: LogLevel,
    message: &str,
    data: Option<Json>,
)
    requires
        call_ensures(Ctx::<B, C>::log_with_data, (ctx, level, message, data), ()) || (data is None
            && call_ensures(Ctx::<B, C>::log, (ctx, level, message), ())),
    ensures
        old(ctx).logs is None ==> final(ctx).logs is None,
        old(ctx).logs matches Some(before) ==> (final(ctx).logs matches Some(after) && {
            &&& after@.len() == before@.len() + 1
            &&& forall|i: int| 0 <= i < before@.len() ==> #[trigger] after@[i] == before@[i]
            &&& after@[before@.len() as int].level == level
            &&& after@[before@.len() as int].message@ == message@
            &&& after@[before@.len() as int].data == data
        }),
        final(ctx).labels == old(ctx).labels,
        final(ctx).effect_store == old(ctx).effect_store,
        final(ctx).workflow_id == old(ctx).workflow_id,
{
    if let Some(before) = old(ctx).logs {
        let after = final(ctx).logs->0;
        assert forall|i: int| 0 <= i < before@.len() implies #[trigger] after@[i]
            == before@[i] by {
            assert(after@.drop_last()[i] == after@[i]);
        }
    }
}

/// An effect is run once: its stored result answers without running it and
/// without touching the memo; where none is stored, what it gave is stored
/// under the consumer, the trigger and the label, and nothing else changes.
pub proof fn law_effects_are_memoized<
    B: FoldFns,
    C: EffectStore,
    F: FnOnce() -> Result<T, Error>,
    T: Codec,
>(ctx: &mut Ctx<B, C>, label: &str, compute: F, value: T)
    requires
        call_ensures(Ctx::<B, C>::effect::<F, T>, (ctx, label, compute), Ok(value)),
    ensures
        ({
            let key = (old(ctx).consumer@, old(ctx).event_id, label@);
            let before = old(ctx).effect_store->0.effects();
            let after = final(ctx).effect_store->0.effects();
            &&& before.contains_key(key) ==> T::decoded(before[key]) == Some(value)
                && final(ctx).effect_store->0 == old(ctx).effect_store->0
            &&& !before.contains_key(key) ==> exists|result: T|
                {
                    &&& #[trigger] compute.ensures((), Ok(result))
                    &&& result.encoded() == Some(after[key])
                    &&& T::decoded(after[key]) == Some(value)
                }
            &&& after.contains_key(key)
            &&& forall|other: (Seq<char>, u128, Seq<char>)|
                other != key ==> (#[trigger] after.contains_key(other) <==> before.contains_key(
                    other,
                )) && (before.contains_key(other) ==> after[other] == before[other])
        }),
{
}

/// An attempt that is made again is answered as the first was: an effect that
/// succeeded, asked for once more on the same consumer, trigger and label over
/// the memo it left, gives what it gave.
pub proof fn law_retried_effects_agree<
    B: FoldFns,
    C: EffectStore,
    F: FnOnce() -> Result<T, Error>,
    G: FnOnce() -> Result<T, Error>,
    T: Codec,
>(
    first: &mut Ctx<B, C>,
    second: &mut Ctx<B, C>,
    label: &str,
    compute: F,
    again: G,
    a: T,
    b: T,
)
    requires
        call_ensures(Ctx::<B, C>::effect::<F, T>, (first, label, compute), Ok(a)),
        call_ensures(Ctx::<B, C>::effect::<G, T>, (second, label, again), Ok(b)),
        old(second).effect_store == final(first).effect_store,
        old(second).consumer@ == old(first).consumer@,
        old(second).event_id == old(first).event_id,
    ensures
        a == b,
        final(second).effect_store == final(first).effect_store,
{
    law_effects_are_memoized::<B, C, F, T>(first, label, compute, a);
    law_effects_are_memoized::<B, C, G, T>(second, label, again, b);
}

/// Several effects answer in their order, each with what is then stored for
/// its own label; none stored before is lost, and none is stored but theirs.
pub proof fn law_effects_answer_in_order<
    B: FoldFns,
    C: EffectStore,
    F: FnOnce() -> Result<T, Error>,
    T: Codec,
>(ctx: &mut Ctx<B, C>, effects: Vec<(&str, F)>, list: Vec<T>)
    requires
        call_ensures(Ctx::<B, C>::effect_all::<F, T>, (ctx, effects), Ok(list)),
    ensures
        list@.len() == effects@.len(),
        ({
            let before = old(ctx).effect_store->0.effects();
            let after = final(ctx).effect_store->0.effects();
            &&& forall|i: int|
                0 <= i < effects@.len() ==> {
                    let key = (old(ctx).consumer@, old(ctx).event_id, effects@[i].0@);
                    after.contains_key(key) && T::decoded(after[key]) == Some(
                        #[trigger] list@[i],
                    )
                }
            &&& forall|k: (Seq<char>, u128, Seq<char>)| #[trigger]
                before.contains_key(k) ==> after.contains_key(k) && after[k] == before[k]
            &&& forall|k: (Seq<char>, u128, Seq<char>)| #[trigger]
                after.contains_key(k) ==> before.contains_key(k) || exists|i: int|
                    0 <= i < effects@.len() && k == (
                        old(ctx).consumer@,
                        old(ctx).event_id,
                        (#[trigger] effects@[i]).0@,
                    )
        }),
        old(ctx).labels is Some ==> forall|i: int|
            0 <= i < effects@.len() ==> {
                let key = (old(ctx).consumer@, old(ctx).event_id, (#[trigger] effects@[i]).0@);
                old(ctx).effect_store->0.effects().contains_key(key) || exists|result: T|
                    #[trigger] effects@[i].1.ensures((), Ok(result)) && result.encoded() == Some(
                        final(ctx).effect_store->0.effects()[key],
                    )
            },
{
    let wanted = effect_labels(effects@);
    let before = old(ctx).effect_store->0.effects();
    let after = final(ctx).effect_store->0.effects();
    let consumer = old(ctx).consumer@;
    let trigger = old(ctx).event_id;
    assert(wanted.len() == effects@.len());
    assert(ran::<F, T>(before, after, consumer, trigger, effects@, wanted.len() as int));
    assert forall|i: int| 0 <= i < effects@.len() implies {
        let key = (old(ctx).consumer@, old(ctx).event_id, effects@[i].0@);
        after.contains_key(key) && T::decoded(after[key]) == Some(#[trigger] list@[i])
    } by {
        assert(remembered::<T>(after, (consumer, trigger, wanted[i]), list@[i]));
    }
    if old(ctx).labels is Some {
        assert forall|i: int| 0 <= i < effects@.len() implies {
            let key = (old(ctx).consumer@, old(ctx).event_id, (#[trigger] effects@[i]).0@);
            before.contains_key(key) || exists|result: T| #[trigger]
                effects@[i].1.ensures((), Ok(result)) && result.encoded() == Some(after[key])
        } by {
            assert(own_result::<F, T>(
                before,
                after,
                (consumer, trigger, wanted[i]),
                effects@[i].1,
            ));
        }
    }
}

/// A body that reads from its registry sees the state under the aggregate's
/// key, and the one before it, or the initial state where nothing is held.
pub proof fn law_reads_see_the_registry<B: FoldFns, C: EffectStore>(
    ctx: &Ctx<B, C>,
    registry: &AggregatorRegistry<B>,
    aggregate_type: &str,
    id: u128,
    cache: &mut FoldOnReadCache<B::State>,
    r: Result<StateRead<B::State>, Error>,
)
    requires
        ctx.state == StateSource::Registry(registry),
        call_ensures(Ctx::<B, C>::state_of, (ctx, aggregate_type, id, cache), r),
    ensures
        r matches Ok(StateRead::Ready(state)) && ({
            let key = state_key(aggregate_type@, id);
            let before = prev_key(key);
            let initial = registry.aggs()[first_of_type(
                registry.aggs(),
                aggregate_type@,
            )->0].fns.initial();
            &&& registry.table().contains_key(key) ==> state.curr == registry.table()[key].state
            &&& !registry.table().contains_key(key) ==> state.curr == initial
            &&& registry.table().contains_key(before) ==> state.prev
                == registry.table()[before].state
            &&& !registry.table().contains_key(before) ==> state.prev == initial
        }),
        final(cache)@ == old(cache)@,
{
}

/// Labels are claimed for effects all at once or up to the first that is taken.
/// In an attempt they can all be claimed exactly where no two of them are the
/// same and none was claimed for an effect before; then each is, in order,
/// behind those that were. Outside an attempt they always can.
pub proof fn law_effect_labels_are_claimed_once<B: FoldFns, C: EffectStore>(
    ctx: &mut Ctx<B, C>,
    labels: &Vec<&str>,
    r: Result<(), Error>,
)
    requires
        call_ensures(Ctx::<B, C>::claim_effects, (ctx, labels), r),
    ensures
        old(ctx).labels is None ==> r is Ok,
        old(ctx).labels is Some ==> (r is Ok <==> (forall|i: int, j: int|
            0 <= i < j < labels@.len() ==> (#[trigger] labels@[i])@ != (#[trigger] labels@[j])@)
            && (forall|i: int|
            0 <= i < labels@.len() ==> !label_views(old(ctx).labels->0@).contains(
                ("effect"@, (#[trigger] labels@[i])@),
            ))),
        r matches Err(e) ==> e.chain()[0].class == Some(ErrorClass::Domain),
        final(ctx).effect_store == old(ctx).effect_store,
{
    let wanted = Seq::new(labels@.len(), |i: int| labels@[i]@);
    let n = wanted.len();
    assert forall|i: int| 0 <= i < labels@.len() implies #[trigger] wanted[i] == labels@[i]@ by {}
    if let Some(list) = old(ctx).labels {
        let had = label_views(list@);
        lemma_claims_are(had, "effect"@, wanted, n);
        if r is Ok {
            lemma_claimable_distinct(had, "effect"@, wanted, n);
            assert forall|i: int, j: int| 0 <= i < j < labels@.len() implies (
            #[trigger] labels@[i])@ != (#[trigger] labels@[j])@ by {
                assert(wanted[i] != wanted[j]);
            }
            assert forall|i: int| 0 <= i < labels@.len() implies !had.contains(
                ("effect"@, (#[trigger] labels@[i])@),
            ) by {
                lemma_claims_are(had, "effect"@, wanted, i as nat);
                let now = with_claims(Some(had), "effect"@, wanted, i as nat);
                assert(!claimed(now, "effect"@, wanted[i]));
                if had.contains(("effect"@, wanted[i])) {
                    assert(now->0.contains(("effect"@, wanted[i])));
                }
            }
        } else {
            let at = choose|i: int|
                {
                    &&& 0 <= i < wanted.len()
                    &&& claimable(old(ctx).claims(), "effect"@, wanted, i as nat)
                    &&& #[trigger] with_claims(old(ctx).claims(), "effect"@, wanted, i as nat)
                        == final(ctx).claims()
                    &&& claimed(final(ctx).claims(), "effect"@, wanted[i])
                    &&& is_duplicate_error(r->Err_0, "effect"@, wanted[i])
                };
            lemma_claims_are(had, "effect"@, wanted, at as nat);
            let now = with_claims(Some(had), "effect"@, wanted, at as nat)->0;
            assert(now.contains(("effect"@, wanted[at])));
            if !had.contains(("effect"@, wanted[at])) {
                let k = choose|k: int|
                    0 <= k < at && ("effect"@, wanted[at]) == ("effect"@, #[trigger] wanted[k]);
                assert(labels@[k]@ == labels@[at]@);
            } else {
                assert(had.contains(("effect"@, labels@[at]@)));
            }
        }
    } else {
        lemma_no_claims(wanted, n);
        if r is Err {
            let at = choose|i: int|
                {
                    &&& 0 <= i < wanted.len()
                    &&& claimable(old(ctx).claims(), "effect"@, wanted, i as nat)
                    &&& #[trigger] with_claims(old(ctx).claims(), "effect"@, wanted, i as nat)
                        == final(ctx).claims()
                    &&& claimed(final(ctx).claims(), "effect"@, wanted[i])
                    &&& is_duplicate_error(r->Err_0, "effect"@, wanted[i])
                };
            lemma_no_claims(wanted, at as nat);
        }
    }
}

proof fn lemma_no_claims(wanted: Seq<Seq<char>>, n: nat)
    ensures
        with_claims(None, "effect"@, wanted, n) is None,
    decreases n,
{
    if n > 0 {
        lemma_no_claims(wanted, (n - 1) as nat);
    }
}

proof fn lemma_claims_are(
    labels: Seq<(Seq<char>, Seq<char>)>,
    kind: Seq<char>,
    wanted: Seq<Seq<char>>,
    n: nat,
)
    requires
        n <= wanted.len(),
    ensures
        with_claims(Some(labels), kind, wanted, n) matches Some(now) && forall|
            x: (Seq<char>, Seq<char>),
        |
            #[trigger] now.contains(x) <==> labels.contains(x) || exists|k: int|
                0 <= k < n && x == (kind, #[trigger] wanted[k]),
    decreases n,
{
    if n > 0 {
        lemma_claims_are(labels, kind, wanted, (n - 1) as nat);
        let before = with_claims(Some(labels), kind, wanted, (n - 1) as nat)->0;
        let last = (kind, wanted[n - 1]);
        let now = before.push(last);
        assert forall|x: (Seq<char>, Seq<char>)| #[trigger] now.contains(x) <==> labels.contains(x)
            || exists|k: int| 0 <= k < n && x == (kind, #[trigger] wanted[k]) by {
            if now.contains(x) {
                let at = choose|at: int| 0 <= at < now.len() && now[at] == x;
                if at < before.len() {
                    assert(before[at] == x);
                    assert(before.contains(x));
                    if !labels.contains(x) {
                        let k = choose|k: int| 0 <= k < n - 1 && x == (kind, #[trigger] wanted[k]);
                        assert(x == (kind, wanted[k]));
                    }
                } else {
                    assert(x == (kind, wanted[n - 1]));
                }
            }
            if labels.contains(x) || exists|k: int|
                0 <= k < n && x == (kind, #[trigger] wanted[k]) {
                if before.contains(x) {
                    let at = choose|at: int| 0 <= at < before.len() && before[at] == x;
                    assert(now[at] == x);
                } else {
                    let k = choose|k: int| 0 <= k < n && x == (kind, #[trigger] wanted[k]);
                    assert(now[before.len() as int] == last);
                    assert(k == n - 1);
                }
            }
        }
    }
}

/// Within an attempt a label has one effect: a second use is refused as a
/// domain error, runs nothing and leaves the memo as it is; any other label is
/// free, and is taken by its use.
pub proof fn law_labels_have_one_effect<
    B: FoldFns,
    C: EffectStore,
    F: FnOnce() -> Result<T, Error>,
    T: Codec,
>(ctx: &mut Ctx<B, C>, label: &str, compute: F, r: Result<T, Error>)
    requires
        call_ensures(Ctx::<B, C>::effect::<F, T>, (ctx, label, compute), r),
        old(ctx).labels is Some,
    ensures
        ({
            let had = label_views(old(ctx).labels->0@);
            let taken = had.contains(("effect"@, label@));
            &&& taken ==> (r matches Err(e) && e.chain()[0].class == Some(ErrorClass::Domain))
                && final(ctx).effect_store == old(ctx).effect_store && final(ctx).labels
                == old(ctx).labels
            &&& !taken ==> (final(ctx).labels matches Some(list) && label_views(list@) == had.push(
                ("effect"@, label@),
            ))
        }),
{
}

/// A body that folds on read is told to fold the aggregate's own history up to
/// where its trigger stands, and nothing past it.
pub proof fn law_reads_stop_at_the_trigger<B: FoldFns, C: EffectStore>(
    ctx: &Ctx<B, C>,
    registry: &AggregatorRegistry<B>,
    bound: LogCursor,
    aggregate_type: &str,
    id: u128,
    cache: &mut FoldOnReadCache<B::State>,
    read: StateRead<B::State>,
)
    requires
        ctx.state == (StateSource::FoldOnRead { registry, bound }),
        call_ensures(Ctx::<B, C>::state_of, (ctx, aggregate_type, id, cache), Ok(read)),
    ensures
        read matches StateRead::Folding(fold) && fold.bound() == bound.0 && fold.id() == id
            && fold.aggregate_type() == aggregate_type@ && (fold.from().folded_to < bound.0
            || fold.from().folded_to == 0),
{
    if let StateRead::Folding(fold) = read {
        if !resumes(old(cache)@, (aggregate_type@, id), bound.0) {
            assert(resumed(fold.from()) == unread(registry.aggs(), aggregate_type@));
            assert(resumed(fold.from()).folded_to == fold.from().folded_to);
        }
    }
}

} // verus!
