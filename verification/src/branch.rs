//! One branch: the conversational state of a single channel.

use std::collections::VecDeque;
use vstd::prelude::*;

use crate::channel::ChannelId;
use crate::message::Message;
use crate::text::ChannelName;
use crate::time::{Span, Timestamp};

verus! {

/// Whether the messages are in ascending id order.
pub open spec fn sorted_by_id(s: Seq<Message>) -> bool {
    forall|i: int, j: int| 0 <= i <= j < s.len() ==> s[i].id <= s[j].id
}

/// The messages whose id is at most `id`, in their order.
pub open spec fn ids_at_most(s: Seq<Message>, id: u64) -> Seq<Message> {
    s.filter(|m: Message| m.id <= id)
}

/// The messages whose id is above `id`, in their order.
pub open spec fn ids_above(s: Seq<Message>, id: u64) -> Seq<Message> {
    s.filter(|m: Message| m.id > id)
}

/// `msg` placed after every message whose id is at most its own and before
/// the rest: where a stable sort by id puts a message appended last.
pub open spec fn insert_by_id(s: Seq<Message>, msg: Message) -> Seq<Message> {
    ids_at_most(s, msg.id).push(msg) + ids_above(s, msg.id)
}

/// The newest `cap` messages when there are more, else all of them.
pub open spec fn keep_newest(s: Seq<Message>, cap: Option<usize>) -> Seq<Message> {
    match cap {
        Some(c) => if s.len() > c {
            s.skip(s.len() - c)
        } else {
            s
        },
        None => s,
    }
}

/// The later of two instants (the first when they coincide).
pub open spec fn later(a: Timestamp, b: Timestamp) -> Timestamp {
    if b.is_later_than(a) {
        b
    } else {
        a
    }
}

/// The larger of two ids.
pub open spec fn max_id(a: u64, b: u64) -> u64 {
    if b > a {
        b
    } else {
        a
    }
}

/// What a branch is, as the contracts see it.
pub struct BranchView {
    pub channel_id: ChannelId,
    pub channel_name: ChannelName,
    /// The unpruned messages, earliest first.
    pub unpruned: Seq<Message>,
    /// Messages ever received, pruned or not.
    pub message_count: u64,
    /// The latest timestamp ever received, pruned or not.
    pub last_activity: Timestamp,
    /// The highest id ever received, pruned or not.
    pub latest_known_id: u64,
}

/// A branch just planted by its first message.
pub open spec fn planted(id: ChannelId, name: ChannelName, first: Message) -> BranchView {
    BranchView {
        channel_id: id,
        channel_name: name,
        unpruned: seq![first],
        message_count: 1,
        last_activity: first.timestamp,
        latest_known_id: first.id,
    }
}

impl BranchView {
    /// What holds of every branch grown by watering, pruning and capping:
    /// unpruned messages in ascending id order, none above the latest known
    /// id, none later than the last activity, and no more of them than the
    /// lifetime count.
    pub open spec fn consistent(self) -> bool {
        &&& sorted_by_id(self.unpruned)
        &&& forall|i: int| 0 <= i < self.unpruned.len() ==> #[trigger] self.unpruned[i].id
            <= self.latest_known_id
        &&& forall|i: int| 0 <= i < self.unpruned.len() ==> !(#[trigger] self.unpruned[i]).timestamp.is_later_than(self.last_activity)
        &&& self.unpruned.len() <= self.message_count
    }

    /// The branch after `msg` arrives under the channel name `name`: the
    /// message is appended and the whole unpruned list stably sorted by id.
    pub open spec fn watered(self, name: ChannelName, msg: Message) -> BranchView {
        BranchView {
            channel_name: name,
            unpruned: in_id_order(self.unpruned.push(msg)),
            message_count: (self.message_count + 1) as u64,
            last_activity: later(self.last_activity, msg.timestamp),
            latest_known_id: max_id(self.latest_known_id, msg.id),
            ..self
        }
    }

    /// The branch with its oldest unpruned messages evicted down to `cap`.
    pub open spec fn capped(self, cap: Option<usize>) -> BranchView {
        BranchView { unpruned: keep_newest(self.unpruned, cap), ..self }
    }

    /// The branch with every unpruned message of id at most `cursor` cleared.
    pub open spec fn pruned_to(self, cursor: u64) -> BranchView {
        BranchView { unpruned: ids_above(self.unpruned, cursor), ..self }
    }

    /// How long the branch has been idle as of `now`, in nanoseconds.
    pub open spec fn idle_nanos(self, now: Timestamp) -> int {
        now.nanos_since(self.last_activity)
    }
}

/// A point-in-time snapshot of a branch, as `Store::status` returns it.
#[derive(Debug)]
pub struct BranchStatus {
    pub channel_id: ChannelId,
    pub channel_name: ChannelName,
    pub message_count: u64,
    pub earliest_unpruned: Option<Message>,
    pub latest: Option<Message>,
    pub staleness: Span,
}

/// A branch idle past the threshold, with the point that has been waiting
/// on it: its earliest unpruned message, not the latest chatter.
#[derive(Debug)]
pub struct TendEntry {
    pub channel_id: ChannelId,
    pub channel_name: ChannelName,
    pub idle: Span,
    pub earliest_unpruned: Message,
}

/// The raw parts of a branch, as a ledger stores them.
#[derive(Debug)]
pub struct BranchParts {
    pub channel_id: ChannelId,
    pub channel_name: ChannelName,
    pub messages: Vec<Message>,
    pub message_count: u64,
    pub last_activity: Timestamp,
    pub latest_known_id: u64,
}

/// The snapshot of branch `b` as of `now`.
pub open spec fn status_of(b: BranchView, now: Timestamp) -> BranchStatus {
    BranchStatus {
        channel_id: b.channel_id,
        channel_name: b.channel_name,
        message_count: b.message_count,
        earliest_unpruned: if b.unpruned.len() > 0 {
            Some(b.unpruned[0])
        } else {
            None
        },
        latest: if b.unpruned.len() > 0 {
            Some(b.unpruned.last())
        } else {
            None
        },
        staleness: Span { nanos: b.idle_nanos(now) as i128 },
    }
}

/// Whether branch `b` is surfaced by `tend` as of `now`: idle at least
/// `threshold` and with something left unpruned.
pub open spec fn needs_tending(b: BranchView, now: Timestamp, threshold: Span) -> bool {
    b.idle_nanos(now) >= threshold.nanos && b.unpruned.len() > 0
}

/// The `tend` entry of branch `b` as of `now`.
pub open spec fn tend_entry_of(b: BranchView, now: Timestamp) -> TendEntry {
    TendEntry {
        channel_id: b.channel_id,
        channel_name: b.channel_name,
        idle: Span { nanos: b.idle_nanos(now) as i128 },
        earliest_unpruned: b.unpruned[0],
    }
}

/// What a snapshot reports: the branch's own channel, name and lifetime
/// count (not an id), the first and the last of its unpruned messages, and
/// how long it has been idle since its last activity. In a branch kept in id
/// order the first has the lowest id and the last the highest.
pub proof fn lemma_status_reports_the_branch(b: BranchView, now: Timestamp)
    ensures
        ({
            let st = status_of(b, now);
            &&& st.channel_id == b.channel_id
            &&& st.channel_name == b.channel_name
            &&& st.message_count == b.message_count
            &&& st.staleness.nanos == now.nanos_since(b.last_activity)
            &&& (b.unpruned.len() == 0 ==> st.earliest_unpruned is None && st.latest is None)
            &&& (b.unpruned.len() > 0 ==> {
                &&& st.earliest_unpruned == Some(b.unpruned[0])
                &&& st.latest == Some(b.unpruned[b.unpruned.len() - 1])
                &&& (sorted_by_id(b.unpruned) ==> forall|i: int| 0 <= i < b.unpruned.len()
                    ==> st.earliest_unpruned->0.id <= #[trigger] b.unpruned[i].id <= st.latest->0.id)
            })
        }),
{
    now.lemma_nanos_since_fits(b.last_activity);
}

/// Which branches `tend` surfaces, and with what: exactly those idle, since
/// their last activity, for at least the threshold and with a message left
/// unpruned; each with that idle time and its first unpruned message, which
/// in a branch kept in id order is the one of lowest id.
pub proof fn lemma_tend_surfaces_idle_branches(b: BranchView, now: Timestamp, threshold: Span)
    ensures
        needs_tending(b, now, threshold) <==> (now.nanos_since(b.last_activity) >= threshold.nanos
            && b.unpruned.len() > 0),
        tend_entry_of(b, now).idle.nanos == now.nanos_since(b.last_activity),
        tend_entry_of(b, now).channel_id == b.channel_id,
        tend_entry_of(b, now).channel_name == b.channel_name,
        b.unpruned.len() > 0 ==> tend_entry_of(b, now).earliest_unpruned == b.unpruned[0],
        b.unpruned.len() > 0 && sorted_by_id(b.unpruned) ==> forall|i: int| 0 <= i < b.unpruned.len()
            ==> tend_entry_of(b, now).earliest_unpruned.id <= #[trigger] b.unpruned[i].id,
{
    now.lemma_nanos_since_fits(b.last_activity);
}

/// The messages put in id order one after another, each after those of
/// lower or equal id: a stable sort by id.
pub open spec fn in_id_order(s: Seq<Message>) -> Seq<Message>
    decreases s.len(),
{
    if s.len() == 0 {
        s
    } else {
        insert_by_id(in_id_order(s.drop_last()), s.last())
    }
}

/// The branch rebuilt from ledger parts, exactly as they were written.
pub open spec fn restored(p: BranchParts) -> BranchView {
    BranchView {
        channel_id: p.channel_id,
        channel_name: p.channel_name,
        unpruned: p.messages@,
        message_count: p.message_count,
        last_activity: p.last_activity,
        latest_known_id: p.latest_known_id,
    }
}

proof fn lemma_filter_all<A>(s: Seq<A>, pred: spec_fn(A) -> bool)
    requires
        forall|i: int| 0 <= i < s.len() ==> pred(#[trigger] s[i]),
    ensures
        s.filter(pred) == s,
    decreases s.len(),
{
    reveal(Seq::filter);
    if s.len() > 0 {
        lemma_filter_all(s.drop_last(), pred);
        assert(s.drop_last().push(s.last()) =~= s);
    }
}

pub(crate) proof fn lemma_filter_none<A>(s: Seq<A>, pred: spec_fn(A) -> bool)
    requires
        forall|i: int| 0 <= i < s.len() ==> !pred(#[trigger] s[i]),
    ensures
        s.filter(pred) == Seq::<A>::empty(),
    decreases s.len(),
{
    reveal(Seq::filter);
    if s.len() > 0 {
        lemma_filter_none(s.drop_last(), pred);
    }
}

/// On messages split at `p` into ids at most `id` and ids above it, the two
/// filters are the two sides of the split.
pub(crate) proof fn lemma_split_at_id(s: Seq<Message>, id: u64, p: int)
    requires
        0 <= p <= s.len(),
        forall|i: int| 0 <= i < p ==> #[trigger] s[i].id <= id,
        forall|i: int| p <= i < s.len() ==> #[trigger] s[i].id > id,
    ensures
        ids_at_most(s, id) == s.take(p),
        ids_above(s, id) == s.skip(p),
{
    let le = |m: Message| m.id <= id;
    let gt = |m: Message| m.id > id;
    assert(s =~= s.take(p) + s.skip(p));
    Seq::filter_distributes_over_add(s.take(p), s.skip(p), le);
    Seq::filter_distributes_over_add(s.take(p), s.skip(p), gt);
    lemma_filter_all(s.take(p), le);
    lemma_filter_none(s.skip(p), le);
    lemma_filter_none(s.take(p), gt);
    lemma_filter_all(s.skip(p), gt);
    assert(s.take(p) + Seq::<Message>::empty() =~= s.take(p));
    assert(Seq::<Message>::empty() + s.skip(p) =~= s.skip(p));
}

/// Sorts the messages by id, stably.
fn sort_by_id(q: &mut VecDeque<Message>)
    ensures
        final(q)@ == in_id_order(old(q)@),
        sorted_by_id(final(q)@),
{
    let ghost s = q@;
    let mut out: VecDeque<Message> = VecDeque::new();
    let n = q.len();
    let mut i: usize = 0;
    while i < n
        invariant
            n == s.len(),
            0 <= i <= n,
            q@ == s.skip(i as int),
            out@ == in_id_order(s.take(i as int)),
            sorted_by_id(out@),
        decreases n - i,
    {
        let ghost before = q@;
        let m = q.pop_front().unwrap();
        proof {
            assert(m == s[i as int]);
            assert(q@ =~= s.skip(i + 1));
            assert(s.take(i + 1).drop_last() =~= s.take(i as int));
            assert(s.take(i + 1).last() == m);
        }
        insert_in_order(&mut out, m);
        i = i + 1;
    }
    assert(s.take(n as int) =~= s);
    *q = out;
}

/// The sequence with its elements placed one by one in id order keeps every
/// element it is made of, and no other.
pub(crate) proof fn lemma_in_id_order_elements(s: Seq<Message>, m: Message)
    ensures
        in_id_order(s).contains(m) <==> s.contains(m),
        in_id_order(s).len() == s.len(),
    decreases s.len(),
{
    if s.len() > 0 {
        let t = s.drop_last();
        let x = s.last();
        lemma_in_id_order_elements(t, m);
        let o = in_id_order(t);
        lemma_insert_by_id_elements(o, x, m);
        if t.contains(m) {
            let j = choose|j: int| 0 <= j < t.len() && t[j] == m;
            assert(s[j] == m);
        }
        if s.contains(m) && m != x {
            let j = choose|j: int| 0 <= j < s.len() && s[j] == m;
            assert(j < s.len() - 1);
            assert(t[j] == m);
        }
        if m == x {
            assert(s[s.len() - 1] == m);
        }
    }
}

/// Inserting by id keeps every element and adds the new one.
pub(crate) proof fn lemma_insert_by_id_elements(s: Seq<Message>, x: Message, m: Message)
    ensures
        insert_by_id(s, x).contains(m) <==> (s.contains(m) || m == x),
        insert_by_id(s, x).len() == s.len() + 1,
{
    let le = |y: Message| y.id <= x.id;
    let gt = |y: Message| y.id > x.id;
    let a = s.filter(le);
    let b = s.filter(gt);
    let r = insert_by_id(s, x);
    lemma_filter_partition_len(s, x.id);
    assert(r.len() == s.len() + 1);
    if r.contains(m) {
        let j = choose|j: int| 0 <= j < r.len() && r[j] == m;
        if j < a.len() {
            assert(a[j] == m);
            assert(a.contains(m));
            s.lemma_filter_contains_rev(le, m);
        } else if j > a.len() {
            assert(b[j - a.len() - 1] == m);
            assert(b.contains(m));
            s.lemma_filter_contains_rev(gt, m);
        }
    }
    if s.contains(m) {
        let j = choose|j: int| 0 <= j < s.len() && s[j] == m;
        if m.id <= x.id {
            s.lemma_filter_contains(le, j);
            let k = choose|k: int| 0 <= k < a.len() && a[k] == m;
            assert(r[k] == m);
        } else {
            s.lemma_filter_contains(gt, j);
            let k = choose|k: int| 0 <= k < b.len() && b[k] == m;
            assert(r[a.len() + 1 + k] == m);
        }
    }
    if m == x {
        assert(r[a.len() as int] == m);
    }
}

/// The messages at most an id and those above it together are as many as
/// all of them.
proof fn lemma_filter_partition_len(s: Seq<Message>, id: u64)
    ensures
        ids_at_most(s, id).len() + ids_above(s, id).len() == s.len(),
    decreases s.len(),
{
    reveal(Seq::filter);
    if s.len() > 0 {
        lemma_filter_partition_len(s.drop_last(), id);
    }
}

/// Watering keeps a branch consistent.
pub proof fn lemma_watered_consistent(b: BranchView, name: ChannelName, msg: Message)
    requires
        b.consistent(),
        b.message_count < u64::MAX,
    ensures
        b.watered(name, msg).consistent(),
{
    let w = b.watered(name, msg);
    let u = b.unpruned.push(msg);
    assert(u.drop_last() =~= b.unpruned);
    lemma_in_id_order_sorted(u);
    assert forall|i: int| 0 <= i < w.unpruned.len() implies {
        &&& #[trigger] w.unpruned[i].id <= w.latest_known_id
        &&& !w.unpruned[i].timestamp.is_later_than(w.last_activity)
    } by {
        let m = w.unpruned[i];
        lemma_in_id_order_elements(u, m);
        assert(u.contains(m));
        let j = choose|j: int| 0 <= j < u.len() && u[j] == m;
        if j < b.unpruned.len() {
            assert(b.unpruned[j] == m);
        }
    }
    lemma_in_id_order_elements(u, msg);
}

/// The stable sort by id sorts.
pub(crate) proof fn lemma_in_id_order_sorted(s: Seq<Message>)
    ensures
        sorted_by_id(in_id_order(s)),
    decreases s.len(),
{
    if s.len() > 0 {
        lemma_in_id_order_sorted(s.drop_last());
        let o = in_id_order(s.drop_last());
        let x = s.last();
        let p = lemma_sorted_split(o, x.id);
        lemma_split_at_id(o, x.id, p);
        let n = insert_by_id(o, x);
        assert(n =~= o.take(p).push(x) + o.skip(p));
        assert forall|i: int, j: int| 0 <= i <= j < n.len() implies n[i].id <= n[j].id by {
            if i < p && j > p {
                assert(n[i] == o[i]);
                assert(n[j] == o[j - 1]);
            } else if i < p && j < p {
                assert(n[i] == o[i]);
                assert(n[j] == o[j]);
            } else if i < p && j == p {
                assert(n[i] == o[i]);
            } else if i == p && j > p {
                assert(n[j] == o[j - 1]);
            } else if i > p {
                assert(n[i] == o[i - 1]);
                assert(n[j] == o[j - 1]);
            }
        }
    }
}

/// A sorted sequence splits into the ids at most `id` and those above it.
pub(crate) proof fn lemma_sorted_split(s: Seq<Message>, id: u64) -> (p: int)
    requires
        sorted_by_id(s),
    ensures
        0 <= p <= s.len(),
        forall|i: int| 0 <= i < p ==> #[trigger] s[i].id <= id,
        forall|i: int| p <= i < s.len() ==> #[trigger] s[i].id > id,
    decreases s.len(),
{
    if s.len() == 0 {
        0
    } else if s.last().id <= id {
        assert forall|i: int| 0 <= i < s.len() implies #[trigger] s[i].id <= id by {
            assert(s[i].id <= s[s.len() - 1].id);
        }
        s.len() as int
    } else {
        let t = s.drop_last();
        let p = lemma_sorted_split(t, id);
        assert forall|i: int| 0 <= i < p implies #[trigger] s[i].id <= id by {
            assert(s[i] == t[i]);
        }
        assert forall|i: int| p <= i < s.len() implies #[trigger] s[i].id > id by {
            if i < s.len() - 1 {
                assert(s[i] == t[i]);
            }
        }
        p
    }
}

/// Capping keeps a branch consistent.
pub proof fn lemma_capped_consistent(b: BranchView, cap: Option<usize>)
    requires
        b.consistent(),
    ensures
        b.capped(cap).consistent(),
{
    let kept = b.capped(cap).unpruned;
    let d = b.unpruned.len() - kept.len();
    assert forall|i: int| 0 <= i < kept.len() implies kept[i] == b.unpruned[d + i] by {
        if let Some(c) = cap {
            if b.unpruned.len() <= c {
                assert(d == 0);
            }
        }
    }
    assert forall|i: int, j: int| 0 <= i <= j < kept.len() implies kept[i].id <= kept[j].id by {
        assert(kept[i] == b.unpruned[d + i]);
        assert(kept[j] == b.unpruned[d + j]);
    }
    assert forall|i: int| 0 <= i < kept.len() implies {
        &&& #[trigger] kept[i].id <= b.latest_known_id
        &&& !kept[i].timestamp.is_later_than(b.last_activity)
    } by {
        assert(kept[i] == b.unpruned[d + i]);
    }
}

/// Pruning keeps a branch consistent.
pub proof fn lemma_pruned_consistent(b: BranchView, cursor: u64)
    requires
        b.consistent(),
    ensures
        b.pruned_to(cursor).consistent(),
{
    let pred = |m: Message| m.id > cursor;
    let u = b.unpruned;
    let f = u.filter(pred);
    u.lemma_filter_len(pred);
    lemma_filter_sorted(u, cursor);
    assert forall|i: int| 0 <= i < f.len() implies {
        &&& #[trigger] f[i].id <= b.latest_known_id
        &&& !f[i].timestamp.is_later_than(b.last_activity)
    } by {
        assert(f.contains(f[i]));
        u.lemma_filter_contains_rev(pred, f[i]);
        let j = choose|j: int| 0 <= j < u.len() && u[j] == f[i];
        assert(u[j].id <= b.latest_known_id);
    }
}

/// Keeping the ids above a cursor keeps id order.
proof fn lemma_filter_sorted(s: Seq<Message>, cursor: u64)
    requires
        sorted_by_id(s),
    ensures
        sorted_by_id(ids_above(s, cursor)),
{
    let p = lemma_sorted_split(s, cursor);
    lemma_split_at_id(s, cursor, p);
    let f = s.skip(p);
    assert forall|i: int, j: int| 0 <= i <= j < f.len() implies f[i].id <= f[j].id by {
        assert(f[i] == s[p + i]);
        assert(f[j] == s[p + j]);
    }
}

/// Places `msg` after every message whose id is at most its own.
fn insert_in_order(q: &mut VecDeque<Message>, msg: Message)
    requires
        sorted_by_id(old(q)@),
    ensures
        final(q)@ == insert_by_id(old(q)@, msg),
        sorted_by_id(final(q)@),
        forall|i: int|
            0 <= i < final(q)@.len() ==> #[trigger] final(q)@[i] == msg || old(q)@.contains(
                final(q)@[i],
            ),
{
    let ghost s = q@;
    let ghost id = msg.id;
    // Messages mostly arrive in id order, so the place is found from the back.
    let mut p = q.len();
    while p > 0 && q[p - 1].id > msg.id
        invariant
            q@ == s,
            id == msg.id,
            sorted_by_id(s),
            0 <= p <= s.len(),
            forall|i: int| p <= i < s.len() ==> #[trigger] s[i].id > id,
        decreases p,
    {
        p = p - 1;
    }
    proof {
        assert forall|i: int| 0 <= i < p implies #[trigger] s[i].id <= id by {
            if p > 0 {
                assert(s[p - 1].id <= id);
            }
        }
        lemma_split_at_id(s, id, p as int);
    }
    q.insert(p, msg);
    proof {
        let n = q@;
        assert(n =~= insert_by_id(s, n[p as int]));
        assert forall|i: int, j: int| 0 <= i <= j < n.len() implies n[i].id <= n[j].id by {
            if i < p && j > p {
                assert(s[i].id <= id);
                assert(s[j - 1].id > id);
            } else if i < p && j == p {
                assert(s[i].id <= id);
            } else if i == p && j > p {
                assert(s[j - 1].id > id);
            } else if i > p {
                assert(s[i - 1].id <= s[j - 1].id);
            } else if i < p && j < p {
                assert(s[i].id <= s[j].id);
            }
        }
        assert forall|i: int| 0 <= i < n.len() implies #[trigger] n[i] == n[p as int] || s.contains(n[i]) by {
            if i < p {
                assert(n[i] == s[i]);
            } else if i > p {
                assert(n[i] == s[i - 1]);
            }
        }
    }
}

/// The state of one channel's conversation.
#[derive(Debug)]
pub struct Branch {
    pub channel_id: ChannelId,
    pub channel_name: ChannelName,
    /// Unpruned messages in ascending id order: the front is the earliest
    /// unpruned message, the back the latest.
    messages: VecDeque<Message>,
    /// Lifetime count of messages received on this branch, pruned ones
    /// included.
    pub message_count: u64,
    /// The most recent timestamp received, pruned or not. Staleness is
    /// measured from here: pruning does not reset the clock, only new
    /// activity does.
    pub last_activity: Timestamp,
    /// The highest message id ever seen here, pruned or not.
    latest_known_id: u64,
}

impl Clone for Branch {
    fn clone(&self) -> (r: Self)
        ensures
            r@ == self@,
    {
        let messages = self.messages.clone();
        proof {
            assert forall|i: int| 0 <= i < messages@.len() implies messages@[i] == self.messages@[i] by {
                assert(vstd::pervasive::cloned::<Message>(self.messages@[i], messages@[i]));
            }
            assert(messages@ =~= self.messages@);
        }
        Branch {
            channel_id: self.channel_id,
            channel_name: self.channel_name.clone(),
            messages,
            message_count: self.message_count,
            last_activity: self.last_activity,
            latest_known_id: self.latest_known_id,
        }
    }
}

impl View for Branch {
    type V = BranchView;

    closed spec fn view(&self) -> BranchView {
        BranchView {
            channel_id: self.channel_id,
            channel_name: self.channel_name,
            unpruned: self.messages@,
            message_count: self.message_count,
            last_activity: self.last_activity,
            latest_known_id: self.latest_known_id,
        }
    }
}

impl Branch {
    /// A branch planted by its first message.
    pub(crate) fn plant(channel_id: ChannelId, channel_name: ChannelName, first: Message) -> (b:
        Branch)
        ensures
            b@ == planted(channel_id, channel_name, first),
            b@.consistent(),
    {
        let last_activity = first.timestamp;
        let latest_known_id = first.id;
        let mut messages = VecDeque::new();
        messages.push_back(first);
        let b = Branch {
            channel_id,
            channel_name,
            messages,
            message_count: 1,
            last_activity,
            latest_known_id,
        };
        assert(b@.unpruned =~= seq![first]);
        b
    }

    /// Appends `msg`, keeps the unpruned messages stably sorted by id, and
    /// keeps the clocks at their high-water marks.
    pub(crate) fn water(&mut self, channel_name: ChannelName, msg: Message)
        requires
            old(self)@.message_count < u64::MAX,
        ensures
            final(self)@ == old(self)@.watered(channel_name, msg),
            old(self)@.consistent() ==> final(self)@.consistent(),
    {
        proof {
            if old(self)@.consistent() {
                lemma_watered_consistent(old(self)@, channel_name, msg);
            }
        }
        if msg.timestamp.is_after(&self.last_activity) {
            self.last_activity = msg.timestamp;
        }
        if msg.id > self.latest_known_id {
            self.latest_known_id = msg.id;
        }
        self.message_count = self.message_count + 1;
        self.channel_name = channel_name;
        let ghost q = self.messages@;
        sort_by_id(&mut self.messages);
        insert_in_order(&mut self.messages, msg);
        assert(q.push(msg).drop_last() =~= q);
    }

    /// Evicts the oldest unpruned messages until at most `cap` remain.
    pub(crate) fn evict_to(&mut self, cap: Option<usize>)
        ensures
            final(self)@ == old(self)@.capped(cap),
            old(self)@.consistent() ==> final(self)@.consistent(),
    {
        proof {
            if old(self)@.consistent() {
                lemma_capped_consistent(old(self)@, cap);
            }
        }
        let ghost pre = self@;
        if let Some(c) = cap {
            let ghost s = self.messages@;
            while self.messages.len() > c
                invariant
                    pre == old(self)@,
                    s == pre.unpruned,
                    self@ == (BranchView { unpruned: self.messages@, ..pre }),
                    s.len() > c ==> self.messages@.len() >= c,
                    s.len() >= self.messages@.len(),
                    self.messages@ == s.skip(s.len() - self.messages@.len()),
                    s.len() <= c ==> self.messages@ == s,
                decreases self.messages@.len(),
            {
                self.messages.pop_front();
            }
            assert(self.messages@ =~= keep_newest(s, cap));
            assert(self@ =~= old(self)@.capped(cap));
        }
    }

    /// Clears every unpruned message with an id at most `cursor`, keeping
    /// the others in their order; returns how many were cleared.
    pub(crate) fn prune_to(&mut self, cursor: u64) -> (cleared: usize)
        ensures
            final(self)@ == old(self)@.pruned_to(cursor),
            old(self)@.consistent() ==> final(self)@.consistent(),
            cleared == old(self)@.unpruned.len() - final(self)@.unpruned.len(),
    {
        proof {
            if old(self)@.consistent() {
                lemma_pruned_consistent(old(self)@, cursor);
            }
        }
        let ghost s = self.messages@;
        let ghost pre = self@;
        let before = self.messages.len();
        let mut kept: VecDeque<Message> = VecDeque::new();
        let mut i: usize = 0;
        while i < before
            invariant
                pre == old(self)@,
                s == pre.unpruned,
                before == s.len(),
                self@ == pre,
                0 <= i <= before,
                kept@ == ids_above(s.take(i as int), cursor),
            decreases before - i,
        {
            let ghost t = s.take(i + 1);
            proof {
                reveal(Seq::filter);
                assert(t.drop_last() =~= s.take(i as int));
            }
            if self.messages[i].id > cursor {
                kept.push_back(self.messages[i].clone());
            }
            i = i + 1;
        }
        assert(s.take(before as int) =~= s);
        proof {
            s.lemma_filter_len(|m: Message| m.id > cursor);
        }
        self.messages = kept;
        assert(self@ =~= old(self)@.pruned_to(cursor));
        before - self.messages.len()
    }

    /// The snapshot of this branch as of `now`.
    pub fn status_at(&self, now: Timestamp) -> (r: BranchStatus)
        ensures
            r == status_of(self@, now),
            r.message_count == self@.message_count,
            r.staleness.nanos == now.nanos_since(self@.last_activity),
            r.earliest_unpruned == (if self@.unpruned.len() > 0 { Some(self@.unpruned[0]) } else { None::<Message> }),
            r.latest == (if self@.unpruned.len() > 0 {
                Some(self@.unpruned[self@.unpruned.len() - 1])
            } else {
                None::<Message>
            }),
    {
        proof {
            lemma_status_reports_the_branch(self@, now);
        }
        let n = self.messages.len();
        let earliest_unpruned = if n > 0 {
            Some(self.messages[0].clone())
        } else {
            None
        };
        let latest = if n > 0 {
            Some(self.messages[n - 1].clone())
        } else {
            None
        };
        BranchStatus {
            channel_id: self.channel_id,
            channel_name: self.channel_name.clone(),
            message_count: self.message_count,
            earliest_unpruned,
            latest,
            staleness: now.since(&self.last_activity),
        }
    }

    /// The `tend` entry of this branch as of `now`, when it needs tending.
    pub fn tend_entry(&self, now: Timestamp, threshold: Span) -> (r: Option<TendEntry>)
        ensures
            r == (if needs_tending(self@, now, threshold) {
                Some(tend_entry_of(self@, now))
            } else {
                None
            }),
            r is Some <==> (now.nanos_since(self@.last_activity) >= threshold.nanos && self@.unpruned.len() > 0),
            r matches Some(e) ==> {
                &&& e.idle.nanos == now.nanos_since(self@.last_activity)
                &&& e.earliest_unpruned == self@.unpruned[0]
                &&& e.channel_id == self@.channel_id
            },
    {
        proof {
            lemma_tend_surfaces_idle_branches(self@, now, threshold);
        }
        let idle = now.since(&self.last_activity);
        if idle.at_least(&threshold) && self.messages.len() > 0 {
            Some(
                TendEntry {
                    channel_id: self.channel_id,
                    channel_name: self.channel_name.clone(),
                    idle,
                    earliest_unpruned: self.messages[0].clone(),
                },
            )
        } else {
            None
        }
    }

    /// The unpruned messages, earliest first.
    pub fn unpruned(&self) -> (r: Vec<Message>)
        ensures
            r@ == self@.unpruned,
    {
        let mut out: Vec<Message> = Vec::new();
        let n = self.messages.len();
        let mut i: usize = 0;
        while i < n
            invariant
                n == self.messages@.len(),
                0 <= i <= n,
                out@ == self.messages@.take(i as int),
            decreases n - i,
        {
            out.push(self.messages[i].clone());
            i = i + 1;
            assert(out@ =~= self.messages@.take(i as int));
        }
        assert(self.messages@.take(n as int) =~= self.messages@);
        out
    }

    /// The branch's raw parts, as a ledger stores them.
    pub fn to_parts(&self) -> (p: BranchParts)
        ensures
            p.channel_id == self@.channel_id,
            p.channel_name == self@.channel_name,
            p.messages@ == self@.unpruned,
            p.message_count == self@.message_count,
            p.last_activity == self@.last_activity,
            p.latest_known_id == self@.latest_known_id,
    {
        BranchParts {
            channel_id: self.channel_id,
            channel_name: self.channel_name.clone(),
            messages: self.unpruned(),
            message_count: self.message_count,
            last_activity: self.last_activity,
            latest_known_id: self.latest_known_id,
        }
    }

    /// Rebuilds a branch from ledger parts, exactly as they were written.
    pub(crate) fn restore(parts: BranchParts) -> (b: Branch)
        ensures
            b@ == restored(parts),
    {
        let BranchParts {
            channel_id,
            channel_name,
            messages,
            message_count,
            last_activity,
            latest_known_id,
        } = parts;
        let mut queue: VecDeque<Message> = VecDeque::new();
        let n = messages.len();
        let mut i: usize = 0;
        while i < n
            invariant
                n == messages@.len(),
                0 <= i <= n,
                queue@ == messages@.take(i as int),
            decreases n - i,
        {
            queue.push_back(messages[i].clone());
            i = i + 1;
            assert(queue@ =~= messages@.take(i as int));
        }
        assert(messages@.take(n as int) =~= messages@);
        Branch { channel_id, channel_name, messages: queue, message_count, last_activity, latest_known_id }
    }

    /// The earliest message not yet pruned: the one with the lowest id.
    pub fn earliest_unpruned(&self) -> (r: Option<&Message>)
        ensures
            r == (if self@.unpruned.len() > 0 {
                Some(&self@.unpruned[0])
            } else {
                None
            }),
    {
        if self.messages.len() > 0 {
            Some(&self.messages[0])
        } else {
            None
        }
    }

    /// The latest message not yet pruned: the one with the highest id. `None`
    /// once the branch is fully pruned; `last_activity` and the latest known
    /// id are what survive a prune.
    pub fn latest(&self) -> (r: Option<&Message>)
        ensures
            r == (if self@.unpruned.len() > 0 {
                Some(&self@.unpruned[self@.unpruned.len() - 1])
            } else {
                None
            }),
    {
        let n = self.messages.len();
        if n > 0 {
            Some(&self.messages[n - 1])
        } else {
            None
        }
    }

    /// How long this branch has been idle as of `now`.
    pub fn staleness(&self, now: Timestamp) -> (d: Span)
        ensures
            d.nanos == self@.idle_nanos(now),
    {
        now.since(&self.last_activity)
    }

    /// Whether every message of the branch has been pruned or evicted.
    pub fn is_empty_of_unpruned(&self) -> (r: bool)
        ensures
            r == (self@.unpruned.len() == 0),
    {
        self.messages.len() == 0
    }

    /// How many messages are not yet pruned.
    pub fn unpruned_count(&self) -> (n: usize)
        ensures
            n == self@.unpruned.len(),
    {
        self.messages.len()
    }

    /// The channel this branch tracks.
    pub fn channel_id(&self) -> (r: ChannelId)
        ensures
            r == self@.channel_id,
    {
        self.channel_id
    }

    /// The channel's name, as last watered.
    pub fn channel_name(&self) -> (r: &ChannelName)
        ensures
            *r == self@.channel_name,
    {
        &self.channel_name
    }

    /// How many messages this branch has received, pruned ones included.
    pub fn message_count(&self) -> (r: u64)
        ensures
            r == self@.message_count,
    {
        self.message_count
    }

    /// The latest timestamp this branch has received, pruned or not.
    pub fn last_activity(&self) -> (r: Timestamp)
        ensures
            r == self@.last_activity,
    {
        self.last_activity
    }

    /// The highest message id this branch has seen, pruned or not.
    pub fn latest_known_id(&self) -> (id: u64)
        ensures
            id == self@.latest_known_id,
    {
        self.latest_known_id
    }
}

} // verus!
