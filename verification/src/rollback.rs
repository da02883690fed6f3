//! Undoing the fold of one event: the states it may touch are captured before
//! it is delivered, and put back.

use vstd::prelude::*;

use crate::aggregator::{AggregatorView, FoldFns};
use crate::json::{Json, JsonView};
use crate::registry::{deliver, deliver_one, deliver_upto, AggregatorRegistry};
use crate::state_table::Entry;
use crate::text::same;
use crate::transitions::{prev_key, prev_key_text, state_key, state_key_text};
use crate::types::Delivery;

verus! {

/// The states as they were under some keys.
pub struct Rollback<S> {
    saved: Vec<(String, Option<Entry<S>>)>,
}

impl<S> View for Rollback<S> {
    type V = Seq<(Seq<char>, Option<Entry<S>>)>;

    closed spec fn view(&self) -> Seq<(Seq<char>, Option<Entry<S>>)> {
        saved_views(self.saved@)
    }
}

/// The keys of saved entries, with what stood there.
pub open spec fn saved_views<S>(saved: Seq<(String, Option<Entry<S>>)>) -> Seq<
    (Seq<char>, Option<Entry<S>>),
> {
    Seq::new(saved.len(), |i: int| (saved[i].0@, saved[i].1))
}

/// What stands under a key.
pub open spec fn entry_at<S>(table: Map<Seq<char>, Entry<S>>, key: Seq<char>) -> Option<Entry<S>> {
    if table.contains_key(key) {
        Some(table[key])
    } else {
        None
    }
}

/// The keys that an event may touch through the first `n` aggregators: for
/// each one of its kind that finds an id, the state's and its previous-state
/// slot's.
pub open spec fn touched<B: FoldFns>(
    aggs: Seq<AggregatorView<B>>,
    n: nat,
    event_type: Seq<char>,
    payload: JsonView,
) -> Seq<Seq<char>>
    decreases n,
{
    if n == 0 {
        Seq::empty()
    } else {
        let before = touched(aggs, (n - 1) as nat, event_type, payload);
        let agg = aggs[n - 1];
        if agg.event_prefix == event_type && agg.fns.extracted(payload) is Some {
            let key = state_key(agg.aggregate_type, agg.fns.extracted(payload)->0);
            before.push(key).push(prev_key(key))
        } else {
            before
        }
    }
}

/// What stands under each of some keys.
pub open spec fn captured<S>(table: Map<Seq<char>, Entry<S>>, keys: Seq<Seq<char>>) -> Seq<
    (Seq<char>, Option<Entry<S>>),
> {
    Seq::new(keys.len(), |i: int| (keys[i], entry_at(table, keys[i])))
}

/// The table with one entry as it was saved.
pub open spec fn put_one<S>(
    table: Map<Seq<char>, Entry<S>>,
    saved: (Seq<char>, Option<Entry<S>>),
) -> Map<Seq<char>, Entry<S>> {
    match saved.1 {
        Some(e) => table.insert(saved.0, e),
        None => table.remove(saved.0),
    }
}

/// The table with every saved entry as it was, the last saved first.
pub open spec fn put_back<S>(
    table: Map<Seq<char>, Entry<S>>,
    saved: Seq<(Seq<char>, Option<Entry<S>>)>,
) -> Map<Seq<char>, Entry<S>>
    decreases saved.len(),
{
    if saved.len() == 0 {
        table
    } else {
        put_back(put_one(table, saved.last()), saved.drop_last())
    }
}

impl<B: FoldFns> AggregatorRegistry<B> {
    /// Captures every state that an event may touch.
    pub fn capture_for_rollback(&self, event_type: &str, payload: &Json) -> (rollback: Rollback<
        B::State,
    >)
        requires
            self.wf(),
        ensures
            rollback@ == captured(
                self.table(),
                touched(self.aggs(), self.aggs().len(), event_type@, payload@),
            ),
    {
        let ghost aggs = self.aggs();
        let mut saved: Vec<(String, Option<Entry<B::State>>)> = Vec::new();
        let n = self.len();
        let mut i: usize = 0;
        assert(saved_views(saved@) =~= captured(
            self.table(),
            touched(aggs, 0, event_type@, payload@),
        ));
        while i < n
            invariant
                self.wf(),
                aggs == self.aggs(),
                n == aggs.len(),
                i <= n,
                saved_views(saved@) == captured(
                    self.table(),
                    touched(aggs, i as nat, event_type@, payload@),
                ),
            decreases n - i,
        {
            let ghost before = saved_views(saved@);
            let agg = self.aggregator(i);
            if same(agg.event_prefix.as_str(), event_type) {
                if let Some(id) = agg.fns.extract_id_from_json(payload) {
                    let key = state_key_text(agg.aggregate_type.as_str(), id);
                    let slot = prev_key_text(key.as_str());
                    let held = self.copy_entry(i, key.as_str());
                    let held_slot = self.copy_entry(i, slot.as_str());
                    let ghost one = (key@, held);
                    let ghost two = (slot@, held_slot);
                    saved.push((key, held));
                    saved.push((slot, held_slot));
                    assert(saved_views(saved@) =~= before.push(one).push(two));
                    assert(captured(
                        self.table(),
                        touched(aggs, (i + 1) as nat, event_type@, payload@),
                    ) =~= before.push(one).push(two));
                }
            }
            i += 1;
        }
        Rollback { saved }
    }

    /// Puts captured states back.
    pub fn restore_state(&mut self, rollback: Rollback<B::State>)
        requires
            old(self).wf(),
        ensures
            final(self).wf(),
            final(self).aggs() == old(self).aggs(),
            final(self).table() == put_back(old(self).table(), rollback@),
    {
        let mut saved = rollback.saved;
        while saved.len() > 0
            invariant
                self.wf(),
                self.aggs() == old(self).aggs(),
                put_back(self.table(), saved_views(saved@)) == put_back(
                    old(self).table(),
                    rollback@,
                ),
            decreases saved@.len(),
        {
            let ghost before = saved_views(saved@);
            if let Some((key, entry)) = saved.pop() {
                assert(before.last() == (key@, entry));
                assert(before.drop_last() =~= saved_views(saved@));
                self.put_entry(key.as_str(), entry);
            }
        }
    }
}

/// A delivery leaves every state alone that it may not touch.
proof fn lemma_untouched_stay<B: FoldFns>(
    aggs: Seq<AggregatorView<B>>,
    n: nat,
    at: Delivery,
    table: Map<Seq<char>, Entry<B::State>>,
    key: Seq<char>,
)
    requires
        n <= aggs.len(),
        !touched(aggs, n, at.event_type, at.payload).contains(key),
    ensures
        entry_at(deliver_upto(aggs, n, at, table).table, key) == entry_at(table, key),
    decreases n,
{
    if n > 0 {
        let m = (n - 1) as nat;
        let before = touched(aggs, m, at.event_type, at.payload);
        let now = touched(aggs, n, at.event_type, at.payload);
        if before.contains(key) {
            let i = choose|i: int| 0 <= i < before.len() && before[i] == key;
            assert(now[i] == key);
        }
        lemma_untouched_stay(aggs, m, at, table, key);
        let p = deliver_upto(aggs, m, at, table);
        let agg = aggs[n - 1];
        if agg.event_prefix == at.event_type && agg.fns.extracted(at.payload) is Some {
            let own = state_key(agg.aggregate_type, agg.fns.extracted(at.payload)->0);
            assert(now[now.len() - 2] == own);
            assert(now[now.len() - 1] == prev_key(own));
        }
        assert(entry_at(deliver_one(agg, at, p).table, key) == entry_at(p.table, key));
    }
}

/// Putting back what was captured makes every captured key what it was, and
/// leaves the others.
pub proof fn lemma_put_back<S>(
    table: Map<Seq<char>, Entry<S>>,
    was: Map<Seq<char>, Entry<S>>,
    keys: Seq<Seq<char>>,
    key: Seq<char>,
)
    ensures
        entry_at(put_back(table, captured(was, keys)), key) == (if keys.contains(key) {
            entry_at(was, key)
        } else {
            entry_at(table, key)
        }),
    decreases keys.len(),
{
    if keys.len() > 0 {
        let saved = captured(was, keys);
        let rest = keys.drop_last();
        assert(saved.drop_last() =~= captured(was, rest));
        lemma_put_back(put_one(table, saved.last()), was, rest, key);
        if rest.contains(key) {
            let i = choose|i: int| 0 <= i < rest.len() && rest[i] == key;
            assert(keys[i] == key);
        } else if keys.contains(key) {
            let i = choose|i: int| 0 <= i < keys.len() && keys[i] == key;
            if i < rest.len() {
                assert(rest[i] == key);
            }
        } else {
            assert(keys[keys.len() - 1] != key);
        }
    } else {
        assert(captured(was, keys) =~= Seq::empty());
    }
}

/// A delivery is undone by putting back what was captured before it, whether it
/// folded, skipped, gapped or failed.
pub proof fn law_rollback_undoes_a_delivery<B: FoldFns>(
    aggs: Seq<AggregatorView<B>>,
    at: Delivery,
    table: Map<Seq<char>, Entry<B::State>>,
)
    ensures
        put_back(
            deliver(aggs, at, table).table,
            captured(table, touched(aggs, aggs.len(), at.event_type, at.payload)),
        ) == table,
{
    let keys = touched(aggs, aggs.len(), at.event_type, at.payload);
    let after = deliver(aggs, at, table).table;
    let back = put_back(after, captured(table, keys));
    assert forall|key: Seq<char>|
        #![trigger back.contains_key(key)]
        #![trigger table.contains_key(key)]
        entry_at(back, key) == entry_at(table, key) by {
        lemma_put_back(after, table, keys, key);
        if !keys.contains(key) {
            lemma_untouched_stay(aggs, aggs.len(), at, table, key);
        }
    }
    assert(back =~= table) by {
        assert forall|key: Seq<char>| #[trigger] back.contains_key(key) == table.contains_key(
            key,
        ) by {
            assert(entry_at(back, key) == entry_at(table, key));
        }
        assert forall|key: Seq<char>| #[trigger] back.contains_key(key) implies back[key]
            == table[key] by {
            assert(entry_at(back, key) == entry_at(table, key));
        }
    }
}

} // verus!
