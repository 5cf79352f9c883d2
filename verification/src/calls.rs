//! Laws over whole sequences of calls: what every store reached from
//! `Store::new` by watering, pruning and capping looks like.

use vstd::prelude::*;

use crate::branch::{
    lemma_capped_consistent, lemma_pruned_consistent, lemma_status_reports_the_branch, max_id, planted,
    status_of, BranchView,
};
use crate::channel::ChannelId;
use crate::laws::lemma_water_changes_one_branch;
use crate::message::{Disposition, Message, PruneRecord};
use crate::store::StoreView;
use crate::text::ChannelName;
use crate::time::Timestamp;

verus! {

/// A call that changes a store.
pub enum Operation {
    /// `Store::water`.
    Water(ChannelId, ChannelName, Message),
    /// `Store::prune`.
    Prune(ChannelId, u64, Disposition, Timestamp),
    /// `Store::prune_latest`.
    PruneLatest(ChannelId, Disposition, Timestamp),
    /// `Store::set_max_messages_per_branch`.
    SetCap(usize),
}

/// The store that `Store::new` makes.
pub open spec fn empty_store() -> StoreView {
    StoreView { branches: Map::empty(), history: Seq::empty(), cap: None }
}

/// The store after one call, as that call's contract gives it.
pub open spec fn applied(s: StoreView, op: Operation) -> StoreView {
    match op {
        Operation::Water(id, name, msg) => s.watered(id, name, msg),
        Operation::Prune(id, cursor, disposition, now) => s.pruned(id, cursor, disposition, now),
        Operation::PruneLatest(id, disposition, now) => match s.latest_known_id(id) {
            Some(cursor) => s.pruned(id, cursor, disposition, now),
            None => s,
        },
        Operation::SetCap(n) => s.with_cap(n),
    }
}

/// The record that one call answers with in `Ok`, if it answers with one.
pub open spec fn answered_record(s: StoreView, op: Operation) -> Option<PruneRecord> {
    match op {
        Operation::Prune(id, cursor, disposition, now) => match s.prune_outcome(id, cursor, disposition, now) {
            Ok(r) => Some(r),
            Err(_) => None,
        },
        Operation::PruneLatest(id, disposition, now) => match s.latest_known_id(id) {
            Some(cursor) => match s.prune_outcome(id, cursor, disposition, now) {
                Ok(r) => Some(r),
                Err(_) => None,
            },
            None => None,
        },
        _ => None,
    }
}

/// Whether the call's `requires` holds on `s`: a message may arrive unless
/// its branch's lifetime count is at the largest `u64`.
pub open spec fn allowed(s: StoreView, op: Operation) -> bool {
    match op {
        Operation::Water(id, _, _) => s.can_water(id),
        _ => true,
    }
}

/// The store reached from an empty one by the calls, in order.
pub open spec fn run(ops: Seq<Operation>) -> StoreView
    decreases ops.len(),
{
    if ops.len() == 0 {
        empty_store()
    } else {
        applied(run(ops.drop_last()), ops.last())
    }
}

/// Whether every call of the sequence is allowed where it is made.
pub open spec fn runnable(ops: Seq<Operation>) -> bool
    decreases ops.len(),
{
    ops.len() == 0 || (runnable(ops.drop_last()) && allowed(run(ops.drop_last()), ops.last()))
}

/// The records the calls answered with in `Ok`, in order.
pub open spec fn records(ops: Seq<Operation>) -> Seq<PruneRecord>
    decreases ops.len(),
{
    if ops.len() == 0 {
        Seq::empty()
    } else {
        match answered_record(run(ops.drop_last()), ops.last()) {
            Some(r) => records(ops.drop_last()).push(r),
            None => records(ops.drop_last()),
        }
    }
}

/// The largest id of all messages ever watered to channel `id`, if any was.
pub open spec fn highest_watered_id(ops: Seq<Operation>, id: ChannelId) -> Option<u64>
    decreases ops.len(),
{
    if ops.len() == 0 {
        None
    } else {
        let before = highest_watered_id(ops.drop_last(), id);
        match ops.last() {
            Operation::Water(c, _, msg) => if c.0 == id.0 {
                match before {
                    Some(k) => Some(max_id(k, msg.id)),
                    None => Some(msg.id),
                }
            } else {
                before
            },
            _ => before,
        }
    }
}

/// How many of the calls water channel `id`.
pub open spec fn waterings(ops: Seq<Operation>, id: ChannelId) -> nat
    decreases ops.len(),
{
    if ops.len() == 0 {
        0
    } else {
        let here: nat = match ops.last() {
            Operation::Water(c, _, _) => if c.0 == id.0 {
                1
            } else {
                0
            },
            _ => 0,
        };
        waterings(ops.drop_last(), id) + here
    }
}

/// The channels ever watered.
pub open spec fn watered_channels(ops: Seq<Operation>) -> Set<u64>
    decreases ops.len(),
{
    if ops.len() == 0 {
        Set::empty()
    } else {
        match ops.last() {
            Operation::Water(c, _, _) => watered_channels(ops.drop_last()).insert(c.0),
            _ => watered_channels(ops.drop_last()),
        }
    }
}

/// One allowed call keeps a consistent store consistent.
proof fn lemma_step_keeps_consistent(s: StoreView, op: Operation)
    requires
        s.consistent(),
        allowed(s, op),
    ensures
        applied(s, op).consistent(),
{
    match op {
        Operation::Water(id, name, msg) => {
            lemma_water_changes_one_branch(s, id, name, msg);
        },
        Operation::Prune(id, cursor, _, _) => {
            lemma_pruned_store_consistent(s, id, cursor);
        },
        Operation::PruneLatest(id, _, _) => {
            if s.branches.contains_key(id.0) {
                lemma_pruned_store_consistent(s, id, s.branches[id.0].latest_known_id);
            }
        },
        Operation::SetCap(n) => {
            let t = s.with_cap(n);
            assert forall|k: u64| #[trigger] t.branches.contains_key(k) implies {
                &&& t.branches[k].channel_id.0 == k
                &&& t.branches[k].unpruned.len() <= n
                &&& t.branches[k].consistent()
            } by {
                lemma_capped_consistent(s.branches[k], Some(n));
            }
        },
    }
}

/// Pruning one branch keeps a consistent store consistent.
proof fn lemma_pruned_store_consistent(s: StoreView, id: ChannelId, cursor: u64)
    requires
        s.consistent(),
    ensures
        forall|d: Disposition, now: Timestamp| #[trigger] s.pruned(id, cursor, d, now).consistent(),
{
    if s.branches.contains_key(id.0) {
        let b = s.branches[id.0];
        lemma_pruned_consistent(b, cursor);
        b.unpruned.lemma_filter_len(|m: Message| m.id > cursor);
    }
}

/// Every store reached from `Store::new` by allowed calls is consistent: each
/// branch sits under its own channel id, holds its unpruned messages in
/// ascending id order, none above its latest known id and none later than its
/// last activity, no more of them than its lifetime count, and no more than
/// the cap.
pub proof fn lemma_reachable_store_is_consistent(ops: Seq<Operation>)
    requires
        runnable(ops),
    ensures
        run(ops).consistent(),
    decreases ops.len(),
{
    if ops.len() == 0 {
        assert(empty_store().branches =~= Map::<u64, BranchView>::empty());
    } else {
        lemma_reachable_store_is_consistent(ops.drop_last());
        lemma_step_keeps_consistent(run(ops.drop_last()), ops.last());
    }
}

/// The history of a store reached from `Store::new` lists exactly the records
/// that its prune and prune-latest calls answered with in `Ok`, oldest first,
/// across all channels; watering, capping and refused prunes add nothing.
pub proof fn lemma_history_is_the_answered_records(ops: Seq<Operation>)
    ensures
        run(ops).history == records(ops),
    decreases ops.len(),
{
    if ops.len() > 0 {
        lemma_history_is_the_answered_records(ops.drop_last());
    }
}

/// History is append-only: the history after any first part of a sequence of
/// calls is the beginning of the history after the whole sequence.
pub proof fn lemma_history_is_append_only(ops: Seq<Operation>, i: int)
    requires
        0 <= i <= ops.len(),
    ensures
        run(ops.take(i)).history.len() <= run(ops).history.len(),
        run(ops).history.take(run(ops.take(i)).history.len() as int) == run(ops.take(i)).history,
    decreases ops.len(),
{
    if i == ops.len() {
        assert(ops.take(i) =~= ops);
        assert(run(ops).history.take(run(ops).history.len() as int) =~= run(ops).history);
    } else {
        let rest = ops.drop_last();
        assert(rest.take(i) =~= ops.take(i));
        lemma_history_is_append_only(rest, i);
        let h = run(rest).history;
        let n = run(ops.take(i)).history.len() as int;
        let g = run(ops).history;
        assert(g == h || g == h.push(g.last()));
        assert(g.take(n) =~= h.take(n));
    }
}

/// The latest known id of a channel in a store reached from `Store::new` is
/// the largest id of all the messages ever watered to it, whatever was pruned
/// or evicted since; it is absent exactly when the channel was never watered.
pub proof fn lemma_latest_known_id_is_highest_watered(ops: Seq<Operation>, id: ChannelId)
    ensures
        run(ops).latest_known_id(id) == highest_watered_id(ops, id),
    decreases ops.len(),
{
    if ops.len() > 0 {
        lemma_latest_known_id_is_highest_watered(ops.drop_last(), id);
        let s = run(ops.drop_last());
        match ops.last() {
            Operation::Water(c, name, msg) => {
                if c.0 != id.0 {
                    assert(s.watered(c, name, msg).branches[id.0] == s.branches[id.0]);
                } else if !s.branches.contains_key(id.0) {
                    assert(planted(c, name, msg).latest_known_id == msg.id);
                }
            },
            _ => {},
        }
    }
}

/// A branch's lifetime count, as the store holds it and as `status` reports
/// it, is the number of messages ever watered into its channel, whatever
/// their ids and whatever was pruned or evicted since; a channel never
/// watered has no branch.
pub proof fn lemma_message_count_counts_waterings(ops: Seq<Operation>, id: ChannelId, now: Timestamp)
    requires
        runnable(ops),
    ensures
        run(ops).branches.contains_key(id.0) ==> run(ops).branches[id.0].message_count == waterings(ops, id),
        run(ops).branches.contains_key(id.0) ==> status_of(run(ops).branches[id.0], now).message_count
            == waterings(ops, id),
        !run(ops).branches.contains_key(id.0) ==> waterings(ops, id) == 0,
    decreases ops.len(),
{
    if ops.len() > 0 {
        lemma_message_count_counts_waterings(ops.drop_last(), id, now);
        let s = run(ops.drop_last());
        match ops.last() {
            Operation::Water(c, name, msg) => {
                if c.0 != id.0 {
                    assert(s.watered(c, name, msg).branches.contains_key(id.0) == s.branches.contains_key(id.0));
                }
            },
            Operation::Prune(c, cursor, d, t) => {
                assert(s.pruned(c, cursor, d, t).branches.dom() =~= s.branches.dom());
            },
            Operation::PruneLatest(c, d, t) => {
                if s.branches.contains_key(c.0) {
                    assert(s.pruned(c, s.branches[c.0].latest_known_id, d, t).branches.dom() =~= s.branches.dom());
                }
            },
            Operation::SetCap(n) => {
                assert(s.with_cap(n).branches.dom() =~= s.branches.dom());
            },
        }
    }
    if run(ops).branches.contains_key(id.0) {
        lemma_status_reports_the_branch(run(ops).branches[id.0], now);
    }
}

/// The branches of a store reached from `Store::new` are exactly those of
/// the channels ever watered: no call removes a branch, so the store is
/// empty until the first message and has one branch per distinct channel
/// watered.
pub proof fn lemma_branches_are_watered_channels(ops: Seq<Operation>)
    ensures
        run(ops).branches.dom() == watered_channels(ops),
        watered_channels(ops).finite(),
        run(ops).branches.dom().len() == watered_channels(ops).len(),
    decreases ops.len(),
{
    if ops.len() == 0 {
        assert(empty_store().branches.dom() =~= Set::<u64>::empty());
    } else {
        lemma_branches_are_watered_channels(ops.drop_last());
        let s = run(ops.drop_last());
        match ops.last() {
            Operation::Water(c, name, msg) => {
                assert(s.watered(c, name, msg).branches.dom() =~= s.branches.dom().insert(c.0));
            },
            Operation::Prune(id, cursor, d, now) => {
                assert(s.pruned(id, cursor, d, now).branches.dom() =~= s.branches.dom());
            },
            Operation::PruneLatest(id, d, now) => {
                if s.branches.contains_key(id.0) {
                    assert(s.pruned(id, s.branches[id.0].latest_known_id, d, now).branches.dom() =~= s.branches.dom());
                }
            },
            Operation::SetCap(n) => {
                assert(s.with_cap(n).branches.dom() =~= s.branches.dom());
            },
        }
    }
}

} // verus!
