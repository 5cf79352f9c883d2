//! Properties of the tracker that span several operations or hold of every
//! state.

use vstd::prelude::*;

use crate::branch::{
    in_id_order, insert_by_id, keep_newest, lemma_capped_consistent, lemma_filter_none, lemma_in_id_order_sorted,
    lemma_sorted_split, lemma_split_at_id, lemma_watered_consistent, planted, restored, sorted_by_id,
    BranchParts, BranchView,
};
use crate::message::{Disposition, Message};
use crate::store::{parts_of, prune_record, restored_branches, StoreView};
use crate::channel::ChannelId;
use crate::text::ChannelName;
use crate::time::Timestamp;

verus! {

/// Race safety of the prune cursor: a message with an id above the cursor is
/// never cleared, whenever it arrived.
pub proof fn lemma_prune_spares_later_messages(
    s: StoreView,
    id: ChannelId,
    cursor: u64,
    disposition: Disposition,
    now: Timestamp,
    m: Message,
)
    requires
        s.branches.contains_key(id.0),
        s.branches[id.0].unpruned.contains(m),
        m.id > cursor,
    ensures
        s.pruned(id, cursor, disposition, now).branches[id.0].unpruned.contains(m),
{
    let u = s.branches[id.0].unpruned;
    let i = choose|i: int| 0 <= i < u.len() && u[i] == m;
    u.lemma_filter_contains(|x: Message| x.id > cursor, i);
}

/// The prune race, closed: when the cursor is captured as the latest known id
/// and a message with a higher id arrives before the prune runs, the prune
/// leaves exactly that late message, unless a cap of zero evicted it on
/// arrival.
pub proof fn lemma_late_arrival_survives_captured_cursor(
    s: StoreView,
    id: ChannelId,
    name: ChannelName,
    late: Message,
    disposition: Disposition,
    now: Timestamp,
)
    requires
        s.consistent(),
        s.branches.contains_key(id.0),
        s.can_water(id),
        late.id > s.latest_known_id(id)->0,
        s.cap != Some(0usize),
    ensures
        s.watered(id, name, late).pruned(id, s.latest_known_id(id)->0, disposition, now).branches[id.0].unpruned
            == seq![late],
{
    let b = s.branches[id.0];
    let cursor = b.latest_known_id;
    let u = b.unpruned;
    let w = u.push(late);
    assert(b.consistent());
    assert(b.watered(name, late).unpruned == w) by {
        assert forall|i: int| 0 <= i < u.len() implies #[trigger] u[i].id < late.id by {
            assert(u[i].id <= cursor);
        }
        lemma_append_above_all(u, late);
    }
    let kept = keep_newest(w, s.cap);
    let d = w.len() - kept.len();
    assert(d <= u.len()) by {
        if let Some(c) = s.cap {
            assert(c >= 1);
        }
    }
    assert(kept =~= u.skip(d) + seq![late]);
    let pred = |x: Message| x.id > cursor;
    Seq::filter_distributes_over_add(u.skip(d), seq![late], pred);
    assert forall|i: int| 0 <= i < u.skip(d).len() implies !pred(#[trigger] u.skip(d)[i]) by {
        assert(u.skip(d)[i] == u[d + i]);
        assert(u[d + i].id <= cursor);
    }
    lemma_filter_none(u.skip(d), pred);
    reveal(Seq::filter);
    assert(seq![late].drop_last() =~= Seq::<Message>::empty());
    assert(seq![late].filter(pred) =~= seq![late]);
    assert(Seq::<Message>::empty() + seq![late] =~= seq![late]);
}

/// A message whose id is above every id of a sorted list lands at its end.
proof fn lemma_append_above_all(u: Seq<Message>, late: Message)
    requires
        sorted_by_id(u),
        forall|i: int| 0 <= i < u.len() ==> #[trigger] u[i].id < late.id,
    ensures
        in_id_order(u.push(late)) == u.push(late),
{
    lemma_split_at_id(u, late.id, u.len() as int);
    assert(u.take(u.len() as int) =~= u);
    assert(u.skip(u.len() as int) =~= Seq::<Message>::empty());
    lemma_in_id_order_of_sorted(u);
    assert(u.push(late).drop_last() =~= u);
    assert(u.push(late) + Seq::<Message>::empty() =~= u.push(late));
}

/// A prune clears every unpruned message up to its cursor, and only those:
/// every message left is one the branch had and lies above the cursor, and
/// every message the branch had above the cursor is left.
pub proof fn lemma_prune_clears_up_to_cursor(
    s: StoreView,
    id: ChannelId,
    cursor: u64,
    disposition: Disposition,
    now: Timestamp,
)
    requires
        s.branches.contains_key(id.0),
    ensures
        forall|i: int|
            0 <= i < s.pruned(id, cursor, disposition, now).branches[id.0].unpruned.len()
                ==> #[trigger] s.pruned(id, cursor, disposition, now).branches[id.0].unpruned[i].id > cursor,
        forall|m: Message| #[trigger] s.branches[id.0].unpruned.contains(m) && m.id > cursor
            ==> s.pruned(id, cursor, disposition, now).branches[id.0].unpruned.contains(m),
        forall|m: Message| #[trigger] s.pruned(id, cursor, disposition, now).branches[id.0].unpruned.contains(m)
            ==> s.branches[id.0].unpruned.contains(m),
{
    let u = s.branches[id.0].unpruned;
    let pred = |x: Message| x.id > cursor;
    assert forall|i: int| 0 <= i < u.filter(pred).len() implies #[trigger] u.filter(pred)[i].id > cursor by {
        u.lemma_filter_pred(pred, i);
    }
    assert forall|m: Message| #[trigger] u.contains(m) && m.id > cursor implies u.filter(pred).contains(m) by {
        lemma_prune_spares_later_messages(s, id, cursor, disposition, now, m);
    }
    assert forall|m: Message| #[trigger] u.filter(pred).contains(m) implies u.contains(m) by {
        u.lemma_filter_contains_rev(pred, m);
    }
}

/// Pruning at the latest known id leaves the branch with nothing unpruned.
pub proof fn lemma_prune_latest_empties_branch(
    s: StoreView,
    id: ChannelId,
    disposition: Disposition,
    now: Timestamp,
)
    requires
        s.consistent(),
        s.branches.contains_key(id.0),
    ensures
        s.pruned(id, s.latest_known_id(id)->0, disposition, now).branches[id.0].unpruned.len() == 0,
{
    let b = s.branches[id.0];
    let cursor = b.latest_known_id;
    lemma_split_at_id(b.unpruned, cursor, b.unpruned.len() as int);
}

/// A prune changes nothing but the pruned branch's unpruned messages and the
/// history: the lifetime count, the clock, the latest known id, the name and
/// every other branch stay as they were, and history gains exactly the
/// record, at its end.
pub proof fn lemma_prune_changes_only_messages_and_history(
    s: StoreView,
    id: ChannelId,
    cursor: u64,
    disposition: Disposition,
    now: Timestamp,
)
    requires
        s.branches.contains_key(id.0),
    ensures
        ({
            let t = s.pruned(id, cursor, disposition, now);
            let (b, c) = (s.branches[id.0], t.branches[id.0]);
            &&& t.branches.dom() == s.branches.dom()
            &&& forall|k: u64| #[trigger] t.branches.contains_key(k) && k != id.0 ==> t.branches[k] == s.branches[k]
            &&& c.channel_id == b.channel_id
            &&& c.channel_name == b.channel_name
            &&& c.message_count == b.message_count
            &&& c.last_activity == b.last_activity
            &&& c.latest_known_id == b.latest_known_id
            &&& t.history == s.history.push(prune_record(id, cursor, disposition, now))
            &&& t.cap == s.cap
        }),
{
    assert(s.pruned(id, cursor, disposition, now).branches.dom() =~= s.branches.dom());
}

/// Each prune adds its record to its own channel's history and to no other.
pub proof fn lemma_prune_history_per_channel(
    s: StoreView,
    id: ChannelId,
    cursor: u64,
    disposition: Disposition,
    now: Timestamp,
    other: ChannelId,
)
    requires
        s.branches.contains_key(id.0),
    ensures
        s.pruned(id, cursor, disposition, now).history_for(id) == s.history_for(id).push(
            prune_record(id, cursor, disposition, now),
        ),
        other != id ==> s.pruned(id, cursor, disposition, now).history_for(other) == s.history_for(other),
{
    let r = prune_record(id, cursor, disposition, now);
    let h = s.history.push(r);
    reveal(Seq::filter);
    assert(h.drop_last() =~= s.history);
    assert(h.last() == r);
}

/// Watering never rewinds a branch: its clock is at least both the old clock
/// and the new message's time, its latest known id at least both the old one
/// and the new id, and its lifetime count grows by one, whatever order the
/// messages arrive in. No other branch and no history changes.
pub proof fn lemma_water_never_rewinds(s: StoreView, id: ChannelId, name: ChannelName, msg: Message)
    requires
        s.branches.contains_key(id.0),
        s.can_water(id),
    ensures
        ({
            let t = s.watered(id, name, msg);
            let (b, c) = (s.branches[id.0], t.branches[id.0]);
            &&& !b.last_activity.is_later_than(c.last_activity)
            &&& !msg.timestamp.is_later_than(c.last_activity)
            &&& c.latest_known_id >= b.latest_known_id
            &&& c.latest_known_id >= msg.id
            &&& c.message_count == b.message_count + 1
            &&& c.channel_name == name
            &&& forall|k: u64| #[trigger] t.branches.contains_key(k) && k != id.0 ==> t.branches[k] == s.branches[k]
            &&& t.history == s.history
        }),
{
}

/// Watering plants or grows exactly one branch: afterwards the channel has a
/// branch (planted with a count of one, its message's time and id, when it
/// had none), every other branch and the history are unchanged, the branch
/// holds no more than the cap, and a consistent store stays consistent.
pub proof fn lemma_water_changes_one_branch(s: StoreView, id: ChannelId, name: ChannelName, msg: Message)
    requires
        s.wf(),
        s.can_water(id),
    ensures
        ({
            let t = s.watered(id, name, msg);
            &&& t.branches.dom() == s.branches.dom().insert(id.0)
            &&& forall|k: u64| #[trigger] t.branches.contains_key(k) && k != id.0 ==> t.branches[k] == s.branches[k]
            &&& t.history == s.history
            &&& t.cap == s.cap
            &&& t.wf()
            &&& s.consistent() ==> t.consistent()
            &&& !s.branches.contains_key(id.0) ==> {
                &&& t.branches[id.0].message_count == 1
                &&& t.branches[id.0].last_activity == msg.timestamp
                &&& t.branches[id.0].latest_known_id == msg.id
                &&& t.branches[id.0].channel_id == id
            }
        }),
{
    let t = s.watered(id, name, msg);
    assert(t.branches.dom() =~= s.branches.dom().insert(id.0));
    lemma_water_keeps_consistent(s, id, name, msg);
}

/// The store-level form of watering keeping consistency.
proof fn lemma_water_keeps_consistent(s: StoreView, id: ChannelId, name: ChannelName, msg: Message)
    requires
        s.wf(),
        s.can_water(id),
    ensures
        s.watered(id, name, msg).wf(),
        s.consistent() ==> s.watered(id, name, msg).consistent(),
{
    let grown = if s.branches.contains_key(id.0) {
        s.branches[id.0].watered(name, msg)
    } else {
        planted(id, name, msg)
    };
    let kept = keep_newest(grown.unpruned, s.cap);
    assert(s.cap matches Some(c) ==> kept.len() <= c);
    if s.consistent() {
        if s.branches.contains_key(id.0) {
            lemma_watered_consistent(s.branches[id.0], name, msg);
        } else {
            assert(grown.unpruned =~= seq![msg]);
        }
        lemma_capped_consistent(grown, s.cap);
    }
}

/// FIFO order: in a branch kept in id order the earliest unpruned message
/// has the lowest id and the latest the highest.
pub proof fn lemma_fifo_ends(b: BranchView)
    requires
        sorted_by_id(b.unpruned),
        b.unpruned.len() > 0,
    ensures
        forall|i: int|
            0 <= i < b.unpruned.len() ==> b.unpruned[0].id <= #[trigger] b.unpruned[i].id
                <= b.unpruned.last().id,
{
}

/// The cap evicts oldest first: what a capped branch keeps is the newest part
/// of what it had, no message kept has a lower id than any evicted, and no
/// more than the cap is kept; what is kept stays in id order.
pub proof fn lemma_cap_evicts_oldest_first(b: BranchView, cap: usize)
    requires
        sorted_by_id(b.unpruned),
    ensures
        ({
            let kept = b.capped(Some(cap)).unpruned;
            let evicted = b.unpruned.len() - kept.len();
            &&& kept.len() <= cap
            &&& kept.len() == (if b.unpruned.len() > cap { cap as int } else { b.unpruned.len() as int })
            &&& kept == b.unpruned.skip(evicted)
            &&& forall|i: int, j: int| 0 <= i < evicted && 0 <= j < kept.len() ==> #[trigger] b.unpruned[i].id <= #[trigger] kept[j].id
            &&& sorted_by_id(kept)
        }),
{
    let kept = keep_newest(b.unpruned, Some(cap));
    let evicted = b.unpruned.len() - kept.len();
    assert forall|i: int, j: int| 0 <= i < evicted && 0 <= j < kept.len() implies #[trigger] b.unpruned[i].id <= #[trigger] kept[j].id by {
        assert(kept[j] == b.unpruned[evicted + j]);
    }
    assert forall|i: int, j: int| 0 <= i <= j < kept.len() implies kept[i].id <= kept[j].id by {
        assert(kept[i] == b.unpruned[evicted + i]);
        assert(kept[j] == b.unpruned[evicted + j]);
    }
    if b.unpruned.len() <= cap {
        assert(b.unpruned.skip(0) =~= b.unpruned);
    }
}

/// Under a cap, watering keeps the highest ids: the branch holds the newest
/// `k` of the messages it would hold with no cap (all of them when there are
/// no more than `k`), every evicted message has an id no higher than any kept
/// one, the count, clock, latest known id and name are what they would be
/// with no cap, and history is unchanged: eviction records no prune. This
/// holds of every store, whatever order its branch was in before: watering
/// puts the whole branch in id order before evicting.
pub proof fn lemma_water_cap_keeps_highest_ids(
    s: StoreView,
    id: ChannelId,
    name: ChannelName,
    msg: Message,
    k: usize,
)
    requires
        s.cap == Some(k),
    ensures
        ({
            let free = StoreView { cap: None, ..s }.watered(id, name, msg).branches[id.0];
            let t = s.watered(id, name, msg);
            let c = t.branches[id.0];
            let evicted = free.unpruned.len() - c.unpruned.len();
            &&& c.unpruned == keep_newest(free.unpruned, Some(k))
            &&& c.unpruned.len() == (if free.unpruned.len() > k { k as int } else { free.unpruned.len() as int })
            &&& c.unpruned == free.unpruned.skip(evicted)
            &&& forall|i: int, j: int| 0 <= i < evicted && 0 <= j < c.unpruned.len()
                ==> #[trigger] free.unpruned[i].id <= #[trigger] c.unpruned[j].id
            &&& sorted_by_id(c.unpruned)
            &&& c.message_count == free.message_count
            &&& c.last_activity == free.last_activity
            &&& c.latest_known_id == free.latest_known_id
            &&& c.channel_name == name
            &&& t.history == s.history
        }),
{
    let free = StoreView { cap: None, ..s }.watered(id, name, msg).branches[id.0];
    if s.branches.contains_key(id.0) {
        lemma_in_id_order_sorted(s.branches[id.0].unpruned.push(msg));
    } else {
        assert(free.unpruned =~= seq![msg]);
    }
    assert(keep_newest(free.unpruned, None) == free.unpruned);
    lemma_cap_evicts_oldest_first(free, k);
}

/// Setting a cap touches nothing but unpruned messages: every branch keeps
/// its count, clock, latest known id and name, history is unchanged (eviction
/// leaves no record), and afterwards no branch holds more than the cap.
pub proof fn lemma_set_cap_changes_only_unpruned(s: StoreView, cap: usize)
    ensures
        ({
            let t = s.with_cap(cap);
            &&& t.branches.dom() == s.branches.dom()
            &&& t.history == s.history
            &&& t.cap == Some(cap)
            &&& forall|k: u64| #[trigger] t.branches.contains_key(k) ==> {
                &&& t.branches[k].channel_id == s.branches[k].channel_id
                &&& t.branches[k].channel_name == s.branches[k].channel_name
                &&& t.branches[k].message_count == s.branches[k].message_count
                &&& t.branches[k].last_activity == s.branches[k].last_activity
                &&& t.branches[k].latest_known_id == s.branches[k].latest_known_id
                &&& t.branches[k].unpruned.len() <= cap
            }
        }),
{
    assert(s.with_cap(cap).branches.dom() =~= s.branches.dom());
}

proof fn lemma_inserts_commute_ordered(s: Seq<Message>, a: Message, b: Message)
    requires
        sorted_by_id(s),
        a.id < b.id,
    ensures
        insert_by_id(insert_by_id(s, a), b) == insert_by_id(insert_by_id(s, b), a),
{
    let pa = lemma_sorted_split(s, a.id);
    let pb = lemma_sorted_split(s, b.id);
    assert(pa <= pb) by {
        if pa > pb {
            assert(s[pb].id > b.id);
            assert(s[pb].id <= a.id);
        }
    }
    lemma_split_at_id(s, a.id, pa);
    lemma_split_at_id(s, b.id, pb);
    let s1 = insert_by_id(s, a);
    assert(s1 =~= s.take(pa).push(a) + s.skip(pa));
    assert forall|i: int| 0 <= i < pb + 1 implies #[trigger] s1[i].id <= b.id by {
        if i < pa {
            assert(s1[i] == s[i]);
        } else if i > pa {
            assert(s1[i] == s[i - 1]);
        }
    }
    assert forall|i: int| pb + 1 <= i < s1.len() implies #[trigger] s1[i].id > b.id by {
        assert(s1[i] == s[i - 1]);
    }
    lemma_split_at_id(s1, b.id, pb + 1);
    let s2 = insert_by_id(s, b);
    assert(s2 =~= s.take(pb).push(b) + s.skip(pb));
    assert forall|i: int| 0 <= i < pa implies #[trigger] s2[i].id <= a.id by {
        assert(s2[i] == s[i]);
    }
    assert forall|i: int| pa <= i < s2.len() implies #[trigger] s2[i].id > a.id by {
        if i < pb {
            assert(s2[i] == s[i]);
        } else if i > pb {
            assert(s2[i] == s[i - 1]);
            assert(s[pb].id > b.id);
        }
    }
    lemma_split_at_id(s2, a.id, pa);
    assert(insert_by_id(s1, b) =~= insert_by_id(s2, a));
}

/// Arrival order does not matter: two messages with different ids, watered
/// in either order into a consistent branch, leave the same unpruned messages
/// in the same order, the same clock, the same latest known id and the same
/// lifetime count.
pub proof fn lemma_water_order_independent(b: BranchView, name: ChannelName, m1: Message, m2: Message)
    requires
        b.consistent(),
        m1.id != m2.id,
        b.message_count + 2 <= u64::MAX,
    ensures
        b.watered(name, m1).watered(name, m2) == b.watered(name, m2).watered(name, m1),
{
    let u = b.unpruned;
    lemma_in_id_order_of_sorted(u);
    lemma_watered_consistent(b, name, m1);
    lemma_watered_consistent(b, name, m2);
    let w1 = b.watered(name, m1);
    let w2 = b.watered(name, m2);
    assert(u.push(m1).drop_last() =~= u);
    assert(u.push(m2).drop_last() =~= u);
    lemma_in_id_order_of_sorted(w1.unpruned);
    lemma_in_id_order_of_sorted(w2.unpruned);
    assert(w1.unpruned.push(m2).drop_last() =~= w1.unpruned);
    assert(w2.unpruned.push(m1).drop_last() =~= w2.unpruned);
    if m1.id < m2.id {
        lemma_inserts_commute_ordered(u, m1, m2);
    } else {
        lemma_inserts_commute_ordered(u, m2, m1);
    }
    let x = w1.watered(name, m2);
    let y = w2.watered(name, m1);
    assert(x.unpruned =~= y.unpruned);
    assert(x.last_activity == y.last_activity);
}

proof fn lemma_in_id_order_of_sorted(s: Seq<Message>)
    requires
        sorted_by_id(s),
    ensures
        in_id_order(s) == s,
    decreases s.len(),
{
    if s.len() > 0 {
        let t = s.drop_last();
        let m = s.last();
        assert(sorted_by_id(t));
        lemma_in_id_order_of_sorted(t);
        assert(in_id_order(s) == insert_by_id(t, m));
        assert forall|i: int| 0 <= i < t.len() implies #[trigger] t[i].id <= m.id by {
            assert(s[i].id <= s[s.len() - 1].id);
        }
        lemma_split_at_id(t, m.id, t.len() as int);
        assert(t.take(t.len() as int) =~= t);
        assert(t.skip(t.len() as int) =~= Seq::<Message>::empty());
        assert(insert_by_id(t, m) =~= s);
    }
}

proof fn lemma_restored_parts(p: BranchParts, b: BranchView, cap: Option<usize>)
    requires
        parts_of(p, b),
        cap matches Some(c) ==> b.unpruned.len() <= c,
    ensures
        restored(p).capped(cap) == b,
{
}

proof fn lemma_restored_prefix(s: StoreView, ps: Seq<BranchParts>, n: int)
    requires
        s.wf(),
        0 <= n <= ps.len(),
        forall|i: int, j: int| 0 <= i < j < ps.len() ==> ps[i].channel_id.0 < ps[j].channel_id.0,
        forall|i: int| 0 <= i < ps.len() ==> s.branches.contains_key(#[trigger] ps[i].channel_id.0),
        forall|i: int| 0 <= i < ps.len() ==> parts_of(#[trigger] ps[i], s.branches[ps[i].channel_id.0]),
    ensures
        forall|k: u64| #[trigger] restored_branches(ps.take(n), s.cap).contains_key(k) <==> exists|i: int| 0 <= i < n && ps[i].channel_id.0 == k,
        forall|k: u64| #[trigger] restored_branches(ps.take(n), s.cap).contains_key(k) ==> restored_branches(ps.take(n), s.cap)[k] == s.branches[k],
    decreases n,
{
    if n > 0 {
        lemma_restored_prefix(s, ps, n - 1);
        assert(ps.take(n).drop_last() =~= ps.take(n - 1));
        let p = ps[n - 1];
        assert(ps.take(n).last() == p);
        assert(restored_branches(ps.take(n), s.cap) == restored_branches(ps.take(n - 1), s.cap).insert(
            p.channel_id.0,
            restored(p).capped(s.cap),
        ));
        lemma_restored_parts(p, s.branches[p.channel_id.0], s.cap);
        assert forall|k: u64| #[trigger] restored_branches(ps.take(n), s.cap).contains_key(k) <==> exists|i: int| 0 <= i < n && ps[i].channel_id.0 == k by {
            if exists|i: int| 0 <= i < n && ps[i].channel_id.0 == k {
                let i = choose|i: int| 0 <= i < n && ps[i].channel_id.0 == k;
                if i < n - 1 {
                    assert(exists|i: int| 0 <= i < n - 1 && ps[i].channel_id.0 == k);
                }
            }
        }
    }
}

/// Saving and loading give back the same branches: rebuilding a store from
/// the parts that `Store::branch_parts` lists (ascending, one per branch, each
/// holding its branch's state), under the store's own cap, yields exactly
/// the branches it had.
pub proof fn lemma_restore_inverts_parts(s: StoreView, parts: Seq<BranchParts>)
    requires
        s.wf(),
        forall|i: int, j: int| 0 <= i < j < parts.len() ==> parts[i].channel_id.0 < parts[j].channel_id.0,
        forall|k: u64| s.branches.contains_key(k) <==> exists|i: int| 0 <= i < parts.len() && #[trigger] parts[i].channel_id.0 == k,
        forall|i: int| 0 <= i < parts.len() ==> parts_of(#[trigger] parts[i], s.branches[parts[i].channel_id.0]),
    ensures
        restored_branches(parts, s.cap) == s.branches,
{
    assert forall|i: int| 0 <= i < parts.len() implies s.branches.contains_key(#[trigger] parts[i].channel_id.0) by {
        let k = parts[i].channel_id.0;
        assert(exists|j: int| 0 <= j < parts.len() && #[trigger] parts[j].channel_id.0 == k);
        assert(s.branches.contains_key(k));
    }
    lemma_restored_prefix(s, parts, parts.len() as int);
    assert(parts.take(parts.len() as int) =~= parts);
    assert(restored_branches(parts, s.cap) =~= s.branches);
}

} // verus!
