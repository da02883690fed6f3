//! The `(prev, next)` pairs that one fold produced, by state key.

use vstd::prelude::*;

use crate::ids::{id_chars, id_text};
use crate::text::same;

verus! {

/// The key of an aggregate's state: `{aggregate_type}:{id}`.
pub open spec fn state_key(aggregate_type: Seq<char>, id: u128) -> Seq<char> {
    aggregate_type + ":"@ + id_chars(id)
}

/// The key of the slot that keeps the state before the last fold.
pub open spec fn prev_key(key: Seq<char>) -> Seq<char> {
    key + ":prev"@
}

pub fn state_key_text(aggregate_type: &str, id: u128) -> (key: String)
    ensures
        key@ == state_key(aggregate_type@, id),
{
    let mut key = aggregate_type.to_owned();
    key.append(":");
    key.append(id_text(id).as_str());
    key
}

pub fn prev_key_text(key: &str) -> (prev: String)
    ensures
        prev@ == prev_key(key@),
{
    let mut prev = key.to_owned();
    prev.append(":prev");
    prev
}

/// Different aggregates have different keys.
pub proof fn lemma_state_key_injective(t1: Seq<char>, id1: u128, t2: Seq<char>, id2: u128)
    requires
        state_key(t1, id1) == state_key(t2, id2),
    ensures
        t1 == t2,
        id1 == id2,
{
    reveal_strlit(":");
    crate::ids::lemma_id_chars_shape(id1);
    crate::ids::lemma_id_chars_shape(id2);
    let k1 = state_key(t1, id1);
    let k2 = state_key(t2, id2);
    assert(k1.len() == t1.len() + 37);
    assert(k2.len() == t2.len() + 37);
    assert(id_chars(id1) =~= k1.subrange(k1.len() - 36, k1.len() as int));
    assert(id_chars(id2) =~= k2.subrange(k2.len() - 36, k2.len() as int));
    crate::ids::lemma_id_chars_injective(id1, id2);
    assert(t1 =~= k1.subrange(0, t1.len() as int));
    assert(t2 =~= k2.subrange(0, t2.len() as int));
}

/// No state shares a key with a slot for a previous state, and the slots of
/// different states differ.
pub proof fn lemma_prev_key_apart(t1: Seq<char>, id1: u128, t2: Seq<char>, id2: u128)
    ensures
        state_key(t1, id1) != prev_key(state_key(t2, id2)),
        prev_key(state_key(t1, id1)) == prev_key(state_key(t2, id2)) ==> t1 == t2 && id1 == id2,
{
    reveal_strlit(":");
    reveal_strlit(":prev");
    crate::ids::lemma_id_chars_shape(id1);
    crate::ids::lemma_id_chars_shape(id2);
    let k1 = state_key(t1, id1);
    let k2 = state_key(t2, id2);
    let p1 = prev_key(k1);
    let p2 = prev_key(k2);
    assert(p2[p2.len() - 5] == ':');
    assert(k1[k1.len() - 5] == id_chars(id1)[31]);
    if p1 == p2 {
        assert(k1 =~= p1.subrange(0, p1.len() - 5));
        assert(k2 =~= p2.subrange(0, p2.len() - 5));
        lemma_state_key_injective(t1, id1, t2, id2);
    }
}

/// The transitions of one fold: for each state it touched, the state before
/// and the state after.
pub struct TransitionSnapshots<S> {
    pairs: Vec<(String, S, S)>,
}

impl<S> View for TransitionSnapshots<S> {
    type V = Map<Seq<char>, (S, S)>;

    closed spec fn view(&self) -> Map<Seq<char>, (S, S)> {
        pairs_map(self.pairs@)
    }
}

/// The map that a list of keyed pairs stands for; a later pair replaces an
/// earlier one.
pub open spec fn pairs_map<S>(pairs: Seq<(String, S, S)>) -> Map<Seq<char>, (S, S)>
    decreases pairs.len(),
{
    if pairs.len() == 0 {
        Map::empty()
    } else {
        pairs_map(pairs.drop_last()).insert(pairs.last().0@, (pairs.last().1, pairs.last().2))
    }
}

proof fn lemma_pairs_map<S>(pairs: Seq<(String, S, S)>)
    requires
        forall|i: int, j: int|
            0 <= i < j < pairs.len() ==> (#[trigger] pairs[i]).0@ != (#[trigger] pairs[j]).0@,
    ensures
        forall|i: int|
            0 <= i < pairs.len() ==> pairs_map(pairs).contains_key((#[trigger] pairs[i]).0@)
                && pairs_map(pairs)[pairs[i].0@] == (pairs[i].1, pairs[i].2),
        forall|k: Seq<char>| #[trigger]
            pairs_map(pairs).contains_key(k) ==> exists|i: int|
                0 <= i < pairs.len() && (#[trigger] pairs[i]).0@ == k,
    decreases pairs.len(),
{
    if pairs.len() > 0 {
        let rest = pairs.drop_last();
        assert forall|i: int, j: int| 0 <= i < j < rest.len() implies (#[trigger] rest[i]).0@ != (
        #[trigger] rest[j]).0@ by {
            assert(pairs[i].0@ != pairs[j].0@);
        }
        lemma_pairs_map(rest);
        assert forall|i: int| 0 <= i < pairs.len() implies pairs_map(pairs).contains_key(
            (#[trigger] pairs[i]).0@,
        ) && pairs_map(pairs)[pairs[i].0@] == (pairs[i].1, pairs[i].2) by {
            if i < rest.len() {
                assert(rest[i] == pairs[i]);
                assert(pairs[i].0@ != pairs[pairs.len() - 1].0@);
            }
        }
        assert forall|k: Seq<char>| #[trigger] pairs_map(pairs).contains_key(k) implies exists|
            i: int,
        |
            0 <= i < pairs.len() && (#[trigger] pairs[i]).0@ == k by {
            if k != pairs.last().0@ {
                assert(pairs_map(rest).contains_key(k));
                let i = choose|i: int| 0 <= i < rest.len() && (#[trigger] rest[i]).0@ == k;
                assert(pairs[i].0@ == k);
            } else {
                assert(pairs[pairs.len() - 1].0@ == k);
            }
        }
    }
}

impl<S> TransitionSnapshots<S> {
    /// Each key stands once.
    pub closed spec fn wf(&self) -> bool {
        forall|i: int, j: int|
            0 <= i < j < self.pairs@.len() ==> (#[trigger] self.pairs@[i]).0@ != (
            #[trigger] self.pairs@[j]).0@
    }

    /// No transitions.
    pub fn empty() -> (snapshots: Self)
        ensures
            snapshots.wf(),
            snapshots@ == Map::<Seq<char>, (S, S)>::empty(),
    {
        TransitionSnapshots { pairs: Vec::new() }
    }

    /// Where `key` stands.
    fn position(&self, key: &str) -> (at: Option<usize>)
        ensures
            match at {
                Some(i) => i < self.pairs@.len() && self.pairs@[i as int].0@ == key@,
                None => forall|j: int|
                    0 <= j < self.pairs@.len() ==> (#[trigger] self.pairs@[j]).0@ != key@,
            },
    {
        let mut i: usize = 0;
        while i < self.pairs.len()
            invariant
                i <= self.pairs@.len(),
                forall|j: int| 0 <= j < i ==> (#[trigger] self.pairs@[j]).0@ != key@,
            decreases self.pairs@.len() - i,
        {
            if same(self.pairs[i].0.as_str(), key) {
                return Some(i);
            }
            i += 1;
        }
        None
    }

    /// Records the transition of `key`, in place of an earlier one.
    pub fn insert(&mut self, key: String, prev: S, next: S)
        requires
            old(self).wf(),
        ensures
            final(self).wf(),
            final(self)@ == old(self)@.insert(key@, (prev, next)),
    {
        proof {
            lemma_pairs_map(self.pairs@);
        }
        let at: usize = match self.position(key.as_str()) {
            Some(i) => {
                self.pairs.set(i, (key, prev, next));
                i
            },
            None => {
                let i = self.pairs.len();
                self.pairs.push((key, prev, next));
                i
            },
        };
        proof {
            assert(self.pairs@[at as int] == (key, prev, next));
            lemma_pairs_map(self.pairs@);
            let new = self.pairs@;
            let was = old(self).pairs@;
            assert forall|k: Seq<char>| self@.contains_key(k) implies old(self)@.insert(
                key@,
                (prev, next),
            ).contains_key(k) by {
                let i = choose|i: int| 0 <= i < new.len() && (#[trigger] new[i]).0@ == k;
                if k != key@ {
                    assert(was[i] == new[i]);
                }
            }
            assert forall|k: Seq<char>|
                old(self)@.insert(key@, (prev, next)).contains_key(k) implies #[trigger] self@.contains_key(
                k,
            ) && self@[k] == old(self)@.insert(key@, (prev, next))[k] by {
                if k == key@ {
                    assert(new[at as int].0@ == k);
                } else {
                    let i = choose|i: int| 0 <= i < was.len() && (#[trigger] was[i]).0@ == k;
                    assert(new[i] == was[i]);
                }
            }
            assert(self@ =~= old(self)@.insert(key@, (prev, next)));
        }
    }

    /// The transition of aggregate `aggregate_type` with `id`, if the fold
    /// touched it.
    pub fn get_pair(&self, aggregate_type: &str, id: u128) -> (pair: Option<(&S, &S)>)
        requires
            self.wf(),
        ensures
            match pair {
                Some(pair) => self@.contains_key(state_key(aggregate_type@, id)) && self@[state_key(
                    aggregate_type@,
                    id,
                )] == (*pair.0, *pair.1),
                None => !self@.contains_key(state_key(aggregate_type@, id)),
            },
    {
        proof {
            lemma_pairs_map(self.pairs@);
        }
        let key = state_key_text(aggregate_type, id);
        match self.position(key.as_str()) {
            Some(i) => Some((&self.pairs[i].1, &self.pairs[i].2)),
            None => None,
        }
    }

    /// Every transition once, as `(key, prev, next)`.
    pub fn iter(&self) -> (list: Vec<(&str, &S, &S)>)
        requires
            self.wf(),
        ensures
            forall|i: int, j: int|
                0 <= i < j < list@.len() ==> (#[trigger] list@[i]).0@ != (#[trigger] list@[j]).0@,
            forall|i: int|
                0 <= i < list@.len() ==> self@.contains_key((#[trigger] list@[i]).0@)
                    && self@[list@[i].0@] == (*list@[i].1, *list@[i].2),
            forall|k: Seq<char>| #[trigger]
                self@.contains_key(k) ==> exists|i: int|
                    0 <= i < list@.len() && (#[trigger] list@[i]).0@ == k,
    {
        proof {
            lemma_pairs_map(self.pairs@);
        }
        let mut list: Vec<(&str, &S, &S)> = Vec::new();
        let mut i: usize = 0;
        while i < self.pairs.len()
            invariant
                i <= self.pairs@.len(),
                list@.len() == i,
                forall|j: int|
                    0 <= j < i ==> (#[trigger] list@[j]).0@ == self.pairs@[j].0@ && *list@[j].1
                        == self.pairs@[j].1 && *list@[j].2 == self.pairs@[j].2,
            decreases self.pairs@.len() - i,
        {
            list.push((self.pairs[i].0.as_str(), &self.pairs[i].1, &self.pairs[i].2));
            i += 1;
        }
        proof {
            assert forall|k: Seq<char>| #[trigger] self@.contains_key(k) implies exists|i: int|
                0 <= i < list@.len() && (#[trigger] list@[i]).0@ == k by {
                let i = choose|i: int|
                    0 <= i < self.pairs@.len() && (#[trigger] self.pairs@[i]).0@ == k;
                assert(list@[i].0@ == k);
            }
        }
        list
    }
}

impl<S> Default for TransitionSnapshots<S> {
    fn default() -> (snapshots: Self)
        ensures
            snapshots.wf(),
            snapshots@ == Map::<Seq<char>, (S, S)>::empty(),
    {
        TransitionSnapshots::empty()
    }
}

/// The key of a state is its type, a colon and its id; the slot of the state
/// before adds `:prev`. Different aggregates never share a key, nor a state
/// one with any slot.
pub proof fn law_keys_tell_aggregates_apart(
    a_type: &str,
    a_id: u128,
    b_type: &str,
    b_id: u128,
    a: String,
    b: String,
    key: &str,
    slot: String,
)
    requires
        call_ensures(state_key_text, (a_type, a_id), a),
        call_ensures(state_key_text, (b_type, b_id), b),
        call_ensures(prev_key_text, (key,), slot),
        key@ == a@,
    ensures
        a@ == a_type@ + ":"@ + id_chars(a_id),
        slot@ == a@ + ":prev"@,
        a@ == b@ <==> a_type@ == b_type@ && a_id == b_id,
        slot@ != b@,
{
    if a@ == b@ {
        lemma_state_key_injective(a_type@, a_id, b_type@, b_id);
    }
    lemma_prev_key_apart(b_type@, b_id, a_type@, a_id);
}

/// What a fold reports of an aggregate is what was noted of it last, and
/// nothing exactly where nothing was.
pub proof fn law_transitions_are_found_by_aggregate<S>(
    snapshots: &TransitionSnapshots<S>,
    aggregate_type: &str,
    id: u128,
    pair: Option<(&S, &S)>,
)
    requires
        call_ensures(TransitionSnapshots::<S>::get_pair, (snapshots, aggregate_type, id), pair),
    ensures
        ({
            let key = aggregate_type@ + ":"@ + id_chars(id);
            &&& pair is Some <==> snapshots@.contains_key(key)
            &&& pair matches Some((prev, next)) ==> snapshots@[key] == (*prev, *next)
        }),
{
}

} // verus!
