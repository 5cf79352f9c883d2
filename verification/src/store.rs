//! The store: every branch, keyed by channel, plus the retained prune history.

use std::collections::HashMap;
use vstd::prelude::*;

use crate::branch::{
    lemma_split_at_id, lemma_status_reports_the_branch, lemma_tend_surfaces_idle_branches,
    needs_tending, planted, restored, status_of, tend_entry_of, Branch, BranchParts, BranchStatus,
    BranchView, TendEntry,
};
use crate::channel::ChannelId;
use crate::message::{Disposition, EntmootError, Message, PruneRecord};
use crate::text::ChannelName;
use crate::time::{Span, Timestamp};

verus! {

broadcast use vstd::std_specs::hash::group_hash_axioms;

/// What a store is, as the contracts see it.
pub struct StoreView {
    /// Each branch under the numeric value of its channel id.
    pub branches: Map<u64, BranchView>,
    /// Every prune decision, oldest first, across all channels.
    pub history: Seq<PruneRecord>,
    /// The most unpruned messages a branch may hold, if limited.
    pub cap: Option<usize>,
}

/// The record that a prune of `id` up to `cursor` leaves in history.
pub open spec fn prune_record(id: ChannelId, cursor: u64, disposition: Disposition, now: Timestamp) -> PruneRecord {
    PruneRecord { channel_id: id, message_id: cursor, disposition, pruned_at: now }
}

/// Whether entry `a` comes before entry `b` in `tend`'s answer: the more
/// idle first, and among equally idle ones the lower channel id first.
pub open spec fn tended_before(a: TendEntry, b: TendEntry) -> bool {
    a.idle.nanos > b.idle.nanos || (a.idle.nanos == b.idle.nanos && a.channel_id.0 < b.channel_id.0)
}

/// `tend`'s order is by idle time, most idle first, and by ascending channel
/// id among equally idle entries: of two entries in that order the first has
/// been idle at least as long, and strictly longer unless its channel id is
/// lower; and any two entries of different idle time or channel id are in
/// that order one way round.
pub proof fn lemma_tend_order_is_by_idle_time(a: TendEntry, b: TendEntry)
    ensures
        tended_before(a, b) ==> a.idle.nanos >= b.idle.nanos,
        tended_before(a, b) && a.idle.nanos == b.idle.nanos ==> a.channel_id.0 < b.channel_id.0,
        a.idle.nanos > b.idle.nanos ==> tended_before(a, b),
        a.idle.nanos == b.idle.nanos && a.channel_id.0 < b.channel_id.0 ==> tended_before(a, b),
        !tended_before(a, a),
{
}

/// The branches rebuilt from ledger parts, each held to `cap`; a later part
/// for the same channel replaces an earlier one.
pub open spec fn restored_branches(ps: Seq<BranchParts>, cap: Option<usize>) -> Map<u64, BranchView>
    decreases ps.len(),
{
    if ps.len() == 0 {
        Map::empty()
    } else {
        restored_branches(ps.drop_last(), cap).insert(
            ps.last().channel_id.0,
            restored(ps.last()).capped(cap),
        )
    }
}

impl StoreView {
    /// The store's invariant: each branch sits under its own channel id and
    /// holds no more unpruned messages than the cap allows.
    pub open spec fn wf(self) -> bool {
        forall|k: u64| #[trigger] self.branches.contains_key(k) ==> {
            &&& self.branches[k].channel_id.0 == k
            &&& (self.cap matches Some(c) ==> self.branches[k].unpruned.len() <= c)
        }
    }

    /// What holds of every store grown from an empty one by watering,
    /// pruning and capping: the invariant, and every branch consistent.
    pub open spec fn consistent(self) -> bool {
        &&& self.wf()
        &&& forall|k: u64| #[trigger] self.branches.contains_key(k) ==> self.branches[k].consistent()
    }

    /// A message may arrive on `id` unless its branch's lifetime count is
    /// already at the largest `u64`.
    pub open spec fn can_water(self, id: ChannelId) -> bool {
        self.branches.contains_key(id.0) ==> self.branches[id.0].message_count < u64::MAX
    }

    /// The store after `msg` arrives on channel `id` named `name`: the branch
    /// is planted on the first message and grown on later ones, then held to
    /// the cap.
    pub open spec fn watered(self, id: ChannelId, name: ChannelName, msg: Message) -> StoreView {
        let grown = if self.branches.contains_key(id.0) {
            self.branches[id.0].watered(name, msg)
        } else {
            planted(id, name, msg)
        };
        StoreView { branches: self.branches.insert(id.0, grown.capped(self.cap)), ..self }
    }

    /// The highest id ever seen on `id`'s branch, if it exists.
    pub open spec fn latest_known_id(self, id: ChannelId) -> Option<u64> {
        if self.branches.contains_key(id.0) {
            Some(self.branches[id.0].latest_known_id)
        } else {
            None
        }
    }

    /// The store after pruning `id` up to `cursor`: the branch loses every
    /// unpruned message with an id at most `cursor` and history gains the
    /// record. Unchanged when no branch exists.
    pub open spec fn pruned(self, id: ChannelId, cursor: u64, disposition: Disposition, now: Timestamp) -> StoreView {
        if self.branches.contains_key(id.0) {
            StoreView {
                branches: self.branches.insert(id.0, self.branches[id.0].pruned_to(cursor)),
                history: self.history.push(prune_record(id, cursor, disposition, now)),
                ..self
            }
        } else {
            self
        }
    }

    /// What pruning `id` up to `cursor` answers.
    pub open spec fn prune_outcome(self, id: ChannelId, cursor: u64, disposition: Disposition, now: Timestamp) -> Result<PruneRecord, EntmootError> {
        if self.branches.contains_key(id.0) {
            Ok(prune_record(id, cursor, disposition, now))
        } else {
            Err(EntmootError::UnknownChannel(id))
        }
    }

    /// The store with the cap set to `n` and every branch held to it.
    pub open spec fn with_cap(self, n: usize) -> StoreView {
        StoreView {
            branches: self.branches.map_values(|b: BranchView| b.capped(Some(n))),
            cap: Some(n),
            ..self
        }
    }

    /// The prune history of one channel, oldest first.
    pub open spec fn history_for(self, id: ChannelId) -> Seq<PruneRecord> {
        self.history.filter(|r: PruneRecord| r.channel_id == id)
    }
}

/// Whether the values are in strictly ascending order.
pub open spec fn strictly_ascending(s: Seq<u64>) -> bool {
    forall|i: int, j: int| 0 <= i < j < s.len() ==> s[i] < s[j]
}

/// Whether `p` holds the raw parts of branch `b`.
pub open spec fn parts_of(p: BranchParts, b: BranchView) -> bool {
    &&& p.channel_id == b.channel_id
    &&& p.channel_name == b.channel_name
    &&& p.messages@ == b.unpruned
    &&& p.message_count == b.message_count
    &&& p.last_activity == b.last_activity
    &&& p.latest_known_id == b.latest_known_id
}

/// Whether the entries are in `tend`'s order.
pub open spec fn tend_ordered(s: Seq<TendEntry>) -> bool {
    forall|a: int, b: int| 0 <= a < b < s.len() ==> tended_before(s[a], s[b])
}

/// Places `entry`, whose channel id is above all of `out`'s, in `tend`'s order.
fn insert_tend_entry(out: &mut Vec<TendEntry>, entry: TendEntry)
    requires
        tend_ordered(old(out)@),
        forall|j: int| 0 <= j < old(out)@.len() ==> (#[trigger] old(out)@[j]).channel_id.0 < entry.channel_id.0,
    ensures
        tend_ordered(final(out)@),
        forall|x: TendEntry| #[trigger] final(out)@.contains(x) <==> (old(out)@.contains(x) || x == entry),
{
    let ghost before = out@;
    let ghost e = entry;
    let mut p = out.len();
    while p > 0 && !(out[p - 1].idle.nanos >= entry.idle.nanos)
        invariant
            out@ == before,
            e == entry,
            0 <= p <= before.len(),
            forall|j: int| p <= j < before.len() ==> (#[trigger] before[j]).idle.nanos < e.idle.nanos,
        decreases p,
    {
        p = p - 1;
    }
    out.insert(p, entry);
    proof {
        let o = out@;
        assert forall|a: int, b: int| 0 <= a < b < o.len() implies tended_before(o[a], o[b]) by {
            if b < p {
                assert(tended_before(before[a], before[b]));
            } else if b == p {
                assert(before[a].channel_id.0 < e.channel_id.0);
                if a < p - 1 {
                    assert(tended_before(before[a], before[p - 1]));
                }
                assert(before[p - 1].idle.nanos >= e.idle.nanos);
            } else if a < p && b > p {
                assert(tended_before(before[a], before[b - 1]));
            } else if a == p {
                assert(before[b - 1].idle.nanos < e.idle.nanos);
            } else {
                assert(tended_before(before[a - 1], before[b - 1]));
            }
        }
        assert forall|x: TendEntry| #[trigger] o.contains(x) <==> (before.contains(x) || x == e) by {
            if o.contains(x) {
                let j = choose|j: int| 0 <= j < o.len() && o[j] == x;
                if j < p {
                    assert(before[j] == x);
                } else if j > p {
                    assert(before[j - 1] == x);
                }
            }
            if before.contains(x) {
                let j = choose|j: int| 0 <= j < before.len() && before[j] == x;
                if j < p {
                    assert(o[j] == x);
                } else {
                    assert(o[j + 1] == x);
                }
            }
            if x == e {
                assert(o[p as int] == x);
            }
        }
    }
}

/// The keys of a map of branches, in ascending order.
fn sorted_keys(m: &HashMap<u64, Branch>) -> (ks: Vec<u64>)
    ensures
        strictly_ascending(ks@),
        forall|k: u64| #[trigger] ks@.contains(k) <==> m@.contains_key(k),
{
    let keys = m.keys();
    let ghost all = vstd::std_specs::iter::IteratorSpec::remaining(&keys).unref();
    assert(all.to_set() == m@.dom());
    let mut ks: Vec<u64> = Vec::new();
    for k in it: keys
        invariant
            it.seq() == vstd::std_specs::iter::IteratorSpec::remaining(&keys),
            all == vstd::std_specs::iter::IteratorSpec::remaining(&keys).unref(),
            all.to_set() == m@.dom(),
            0 <= it.index() <= all.len(),
            strictly_ascending(ks@),
            forall|x: u64| #[trigger] ks@.contains(x) <==> all.take(it.index()).contains(x),
    {
        let k = *k;
        let ghost idx = it.index();
        assert(all[idx] == k);
        let mut p = ks.len();
        while p > 0 && ks[p - 1] > k
            invariant
                0 <= p <= ks@.len(),
                strictly_ascending(ks@),
                forall|i: int| p <= i < ks@.len() ==> ks@[i] > k,
            decreases p,
        {
            p = p - 1;
        }
        if p > 0 && ks[p - 1] == k {
            // Keys come without duplicates; a repeat changes nothing.
            proof {
                assert(all.take(idx + 1) =~= all.take(idx).push(k));
                assert forall|x: u64| #[trigger] ks@.contains(x) <==> all.take(idx + 1).contains(x) by {
                    if x == k {
                        assert(ks@[p - 1] == k);
                    }
                    if all.take(idx + 1).contains(x) && x != k {
                        let j = choose|j: int| 0 <= j < idx + 1 && #[trigger] all.take(idx + 1)[j] == x;
                        assert(all.take(idx)[j] == x);
                    }
                }
            }
        } else {
            let ghost old_ks = ks@;
            ks.insert(p, k);
            proof {
                assert(all.take(idx + 1) =~= all.take(idx).push(k));
                assert forall|i: int, j: int| 0 <= i < j < ks@.len() implies ks@[i] < ks@[j] by {
                    if j < p {
                        assert(old_ks[i] < old_ks[j]);
                    } else if i < p && j == p {
                        assert(old_ks[i] <= old_ks[p - 1]);
                        assert(old_ks[p - 1] < k || (old_ks[p - 1] <= k && old_ks[p - 1] != k));
                    } else if i < p && j > p {
                        assert(old_ks[j - 1] > k);
                        if p > 0 {
                            assert(old_ks[i] <= old_ks[p - 1]);
                        }
                    } else if i == p {
                        assert(old_ks[j - 1] > k);
                    } else {
                        assert(old_ks[i - 1] < old_ks[j - 1]);
                    }
                }
                assert forall|x: u64| #[trigger] ks@.contains(x) <==> all.take(idx + 1).contains(x) by {
                    let t = all.take(idx + 1);
                    if x == k {
                        assert(ks@[p as int] == k);
                        assert(t[idx] == k);
                    } else {
                        if ks@.contains(x) {
                            let j = choose|j: int| 0 <= j < ks@.len() && #[trigger] ks@[j] == x;
                            if j < p {
                                assert(old_ks[j] == x);
                            } else {
                                assert(old_ks[j - 1] == x);
                            }
                            assert(old_ks.contains(x));
                            assert(all.take(idx).contains(x));
                            let j2 = choose|j2: int| 0 <= j2 < idx && #[trigger] all.take(idx)[j2] == x;
                            assert(t[j2] == x);
                        }
                        if t.contains(x) {
                            let j = choose|j: int| 0 <= j < idx + 1 && #[trigger] t[j] == x;
                            assert(all.take(idx)[j] == x);
                            assert(all.take(idx).contains(x));
                            assert(old_ks.contains(x));
                            let j2 = choose|j2: int| 0 <= j2 < old_ks.len() && #[trigger] old_ks[j2] == x;
                            if j2 < p {
                                assert(ks@[j2] == x);
                            } else {
                                assert(ks@[j2 + 1] == x);
                            }
                        }
                    }
                }
            }
        }
    }
    proof {
        assert(all.take(all.len() as int) =~= all);
        assert forall|x: u64| #[trigger] ks@.contains(x) <==> m@.contains_key(x) by {
            assert(all.contains(x) <==> all.to_set().contains(x));
        }
    }
    ks
}

/// All branches plus the retained prune history: the whole persisted state.
#[derive(Debug)]
pub struct Store {
    branches: HashMap<u64, Branch>,
    history: Vec<PruneRecord>,
    max_messages_per_branch: Option<usize>,
}

impl Clone for Store {
    fn clone(&self) -> (r: Self)
        ensures
            r@ == self@,
            r.wf(),
    {
        proof {
            use_type_invariant(self);
        }
        Store {
            branches: self.branches.clone(),
            history: self.history.clone(),
            max_messages_per_branch: self.max_messages_per_branch,
        }
    }
}

impl Default for Store {
    fn default() -> (s: Self)
        ensures
            s.wf(),
            s@.branches == Map::<u64, BranchView>::empty(),
            s@.history == Seq::<PruneRecord>::empty(),
            s@.cap == None::<usize>,
    {
        Store::new()
    }
}

/// The branches of a map, each by its view.
pub(crate) open spec fn views(m: Map<u64, Branch>) -> Map<u64, BranchView> {
    m.map_values(|b: Branch| b@)
}

impl View for Store {
    type V = StoreView;

    closed spec fn view(&self) -> StoreView {
        StoreView {
            branches: views(self.branches@),
            history: self.history@,
            cap: self.max_messages_per_branch,
        }
    }
}

impl Store {
    /// The store's invariant, kept by every operation: each branch sits
    /// under its own channel id and holds no more than the cap.
    #[verifier::type_invariant]
    pub open spec fn wf(&self) -> bool {
        self@.wf()
    }

    /// An empty store: no branches, no history, no cap.
    pub fn new() -> (s: Store)
        ensures
            s.wf(),
            s@.consistent(),
            s@.branches == Map::<u64, BranchView>::empty(),
            s@.history == Seq::<PruneRecord>::empty(),
            s@.cap == None::<usize>,
    {
        let s = Store { branches: HashMap::new(), history: Vec::new(), max_messages_per_branch: None };
        assert(s@.branches =~= Map::<u64, BranchView>::empty());
        s
    }

    /// Feeds a message in. The channel's branch is planted by its first
    /// message and grown by later ones, which also rename it to
    /// `channel_name`; this is the only way branches come into existence.
    /// Oldest unpruned messages beyond the cap are then evicted, silently:
    /// eviction leaves no prune record.
    pub fn water(&mut self, channel_id: ChannelId, channel_name: ChannelName, message: Message)
        requires
            old(self)@.can_water(channel_id),
        ensures
            final(self).wf(),
            final(self)@ == old(self)@.watered(channel_id, channel_name, message),
            old(self)@.consistent() ==> final(self)@.consistent(),
    {
        proof {
            use_type_invariant(&*self);
        }
        let ghost pre = self@;
        let key = channel_id.0;
        let cap = self.max_messages_per_branch;
        let mut branches: HashMap<u64, Branch> = HashMap::new();
        std::mem::swap(&mut branches, &mut self.branches);
        let b = match branches.remove(&key) {
            Some(mut b) => {
                assert(b@ == pre.branches[key]);
                b.water(channel_name, message);
                b.evict_to(cap);
                b
            },
            None => {
                let mut b = Branch::plant(channel_id, channel_name, message);
                b.evict_to(cap);
                b
            },
        };
        branches.insert(key, b);
        proof {
            assert(branches@.map_values(|b: Branch| b@) =~= pre.watered(channel_id, channel_name, message).branches);
        }
        self.branches = branches;
    }

    /// The branch of a channel, if one was planted.
    pub fn branch(&self, channel_id: ChannelId) -> (r: Option<&Branch>)
        ensures
            match r {
                Some(b) => self@.branches.contains_key(channel_id.0) && b@ == self@.branches[channel_id.0],
                None => !self@.branches.contains_key(channel_id.0),
            },
    {
        self.branches.get(&channel_id.0)
    }

    /// Whether no branch has been planted.
    pub fn is_empty(&self) -> (r: bool)
        ensures
            r == (self@.branches.dom().len() == 0),
    {
        assert(self@.branches.dom() =~= self.branches@.dom());
        self.branches.len() == 0
    }

    /// How many branches exist.
    pub fn channel_count(&self) -> (n: usize)
        ensures
            n == self@.branches.dom().len(),
    {
        assert(self@.branches.dom() =~= self.branches@.dom());
        self.branches.len()
    }

    /// The highest message id ever seen on a channel's branch, pruned or not:
    /// the cursor that `prune_latest` uses.
    pub fn latest_known_id(&self, channel_id: ChannelId) -> (r: Option<u64>)
        ensures
            r == self@.latest_known_id(channel_id),
    {
        match self.branches.get(&channel_id.0) {
            Some(b) => Some(b.latest_known_id()),
            None => None,
        }
    }

    /// The one prune code path: clears every unpruned message of
    /// `channel_id` with an id at most `message_id`, tags the decision with
    /// `disposition` and the time `now`, and keeps the record in history.
    ///
    /// The cursor is an argument, not re-read here, so a message that
    /// arrives with a higher id between deciding to prune and pruning is
    /// never touched.
    pub fn prune(&mut self, channel_id: ChannelId, message_id: u64, disposition: Disposition, now: Timestamp) -> (r: Result<PruneRecord, EntmootError>)
        ensures
            final(self).wf(),
            final(self)@ == old(self)@.pruned(channel_id, message_id, disposition, now),
            r == old(self)@.prune_outcome(channel_id, message_id, disposition, now),
            old(self)@.consistent() ==> final(self)@.consistent(),
    {
        proof {
            use_type_invariant(&*self);
        }
        let ghost pre = self@;
        let key = channel_id.0;
        if self.branches.get(&key).is_none() {
            return Err(EntmootError::UnknownChannel(channel_id));
        }
        let mut branches: HashMap<u64, Branch> = HashMap::new();
        std::mem::swap(&mut branches, &mut self.branches);
        let mut history: Vec<PruneRecord> = Vec::new();
        std::mem::swap(&mut history, &mut self.history);
        match branches.remove(&key) {
            Some(mut b) => {
                assert(b@ == pre.branches[key]);
                b.prune_to(message_id);
                branches.insert(key, b);
            },
            None => {},
        }
        let record = PruneRecord { channel_id, message_id, disposition, pruned_at: now };
        history.push(record);
        proof {
            assert(branches@.map_values(|b: Branch| b@) =~= pre.pruned(channel_id, message_id, disposition, now).branches);
        }
        self.branches = branches;
        self.history = history;
        Ok(record)
    }

    /// `prune(channel) = prune(channel, latest_known_id)`: reads the branch's
    /// latest known id and hands it to `prune`; there is no second way of
    /// clearing.
    pub fn prune_latest(&mut self, channel_id: ChannelId, disposition: Disposition, now: Timestamp) -> (r: Result<PruneRecord, EntmootError>)
        ensures
            final(self).wf(),
            match old(self)@.latest_known_id(channel_id) {
                Some(cursor) => {
                    &&& final(self)@ == old(self)@.pruned(channel_id, cursor, disposition, now)
                    &&& r == old(self)@.prune_outcome(channel_id, cursor, disposition, now)
                },
                None => {
                    &&& final(self)@ == old(self)@
                    &&& r == Err::<PruneRecord, EntmootError>(EntmootError::UnknownChannel(channel_id))
                },
            },
            old(self)@.consistent() ==> final(self)@.consistent(),
            old(self)@.consistent() && old(self)@.branches.contains_key(channel_id.0)
                ==> final(self)@.branches[channel_id.0].unpruned.len() == 0,
    {
        proof {
            use_type_invariant(&*self);
        }
        proof {
            if old(self)@.consistent() && old(self)@.branches.contains_key(channel_id.0) {
                let b = old(self)@.branches[channel_id.0];
                lemma_split_at_id(b.unpruned, b.latest_known_id, b.unpruned.len() as int);
                assert(b.unpruned.skip(b.unpruned.len() as int) =~= Seq::<Message>::empty());
            }
        }
        match self.latest_known_id(channel_id) {
            Some(cursor) => self.prune(channel_id, cursor, disposition, now),
            None => Err(EntmootError::UnknownChannel(channel_id)),
        }
    }

    /// Sets the cap and evicts, from every branch at once, the oldest
    /// unpruned messages beyond it. Eviction leaves no prune record.
    pub fn set_max_messages_per_branch(&mut self, max: usize)
        ensures
            final(self).wf(),
            final(self)@ == old(self)@.with_cap(max),
            old(self)@.consistent() ==> final(self)@.consistent(),
    {
        proof {
            use_type_invariant(&*self);
        }
        let ghost pre = self@;
        let keys = sorted_keys(&self.branches);
        let mut branches: HashMap<u64, Branch> = HashMap::new();
        std::mem::swap(&mut branches, &mut self.branches);
        self.max_messages_per_branch = Some(max);
        let n = keys.len();
        let mut i: usize = 0;
        while i < n
            invariant
                n == keys@.len(),
                0 <= i <= n,
                pre == old(self)@,
                pre.wf(),
                strictly_ascending(keys@),
                forall|k: u64| #[trigger] keys@.contains(k) <==> pre.branches.contains_key(k),
                self@.history == pre.history,
                self@.cap == Some(max),
                self.branches@.len() == 0,
                views(branches@).dom() == pre.branches.dom(),
                forall|k: u64| #[trigger] views(branches@).contains_key(k) ==> {
                    if keys@.take(i as int).contains(k) {
                        views(branches@)[k] == pre.branches[k].capped(Some(max))
                    } else {
                        views(branches@)[k] == pre.branches[k]
                    }
                },
            decreases n - i,
        {
            let key = keys[i];
            let ghost mid = views(branches@);
            assert(keys@.contains(key));
            assert(!keys@.take(i as int).contains(key)) by {
                if keys@.take(i as int).contains(key) {
                    let j = choose|j: int| 0 <= j < i && #[trigger] keys@.take(i as int)[j] == key;
                    assert(keys@[j] < keys@[i as int]);
                }
            }
            match branches.remove(&key) {
                Some(mut b) => {
                    assert(b@ == mid[key]);
                    b.evict_to(Some(max));
                    branches.insert(key, b);
                },
                None => {},
            }
            proof {
                assert(keys@.take(i + 1) =~= keys@.take(i as int).push(key));
                assert(views(branches@).dom() =~= pre.branches.dom());
                assert forall|k: u64| #[trigger] views(branches@).contains_key(k) implies {
                    if keys@.take(i + 1).contains(k) {
                        views(branches@)[k] == pre.branches[k].capped(Some(max))
                    } else {
                        views(branches@)[k] == pre.branches[k]
                    }
                } by {
                    if k != key {
                        assert(views(branches@)[k] == mid[k]);
                        assert(keys@.take(i + 1).contains(k) <==> keys@.take(i as int).contains(k)) by {
                            if keys@.take(i + 1).contains(k) {
                                let j = choose|j: int| 0 <= j < i + 1 && #[trigger] keys@.take(i + 1)[j] == k;
                                assert(keys@.take(i as int)[j] == k);
                            }
                            if keys@.take(i as int).contains(k) {
                                let j = choose|j: int| 0 <= j < i && #[trigger] keys@.take(i as int)[j] == k;
                                assert(keys@.take(i + 1)[j] == k);
                            }
                        }
                    } else {
                        assert(keys@.take(i + 1)[i as int] == key);
                    }
                }
            }
            i = i + 1;
        }
        proof {
            assert(keys@.take(n as int) =~= keys@);
            assert(views(branches@) =~= pre.with_cap(max).branches);
        }
        self.branches = branches;
    }

    /// Every branch's snapshot as of `now`, in ascending channel id order.
    /// The order is promised: callers may index into the result.
    pub fn status(&self, now: Timestamp) -> (r: Vec<BranchStatus>)
        ensures
            forall|i: int| 0 <= i < r@.len() ==> {
                &&& self@.branches.contains_key(#[trigger] r@[i].channel_id.0)
                &&& r@[i] == status_of(self@.branches[r@[i].channel_id.0], now)
            },
            forall|i: int, j: int| 0 <= i < j < r@.len() ==> r@[i].channel_id.0 < r@[j].channel_id.0,
            forall|k: u64| #[trigger] self@.branches.contains_key(k) ==> exists|i: int|
                0 <= i < r@.len() && #[trigger] r@[i].channel_id.0 == k,
            forall|i: int| 0 <= i < r@.len() ==> {
                let b = self@.branches[#[trigger] r@[i].channel_id.0];
                &&& r@[i].message_count == b.message_count
                &&& r@[i].staleness.nanos == now.nanos_since(b.last_activity)
                &&& r@[i].earliest_unpruned == (if b.unpruned.len() > 0 { Some(b.unpruned[0]) } else { None::<Message> })
                &&& r@[i].latest == (if b.unpruned.len() > 0 {
                    Some(b.unpruned[b.unpruned.len() - 1])
                } else {
                    None::<Message>
                })
            },
    {
        proof {
            use_type_invariant(self);
        }
        let keys = sorted_keys(&self.branches);
        let mut out: Vec<BranchStatus> = Vec::new();
        let n = keys.len();
        let mut i: usize = 0;
        while i < n
            invariant
                self.wf(),
                n == keys@.len(),
                0 <= i <= n,
                strictly_ascending(keys@),
                forall|k: u64| #[trigger] keys@.contains(k) <==> self@.branches.contains_key(k),
                out@.len() == i,
                forall|j: int| 0 <= j < i ==> (#[trigger] out@[j]).channel_id.0 == keys@[j]
                    && out@[j] == status_of(self@.branches[keys@[j]], now),
            decreases n - i,
        {
            let key = keys[i];
            assert(keys@.contains(key));
            match self.branches.get(&key) {
                Some(b) => {
                    out.push(b.status_at(now));
                },
                None => {
                    assert(false);
                },
            }
            i = i + 1;
        }
        proof {
            assert forall|k: u64| #[trigger] self@.branches.contains_key(k) implies exists|i: int|
                0 <= i < out@.len() && #[trigger] out@[i].channel_id.0 == k by {
                assert(keys@.contains(k));
                let j = choose|j: int| 0 <= j < keys@.len() && #[trigger] keys@[j] == k;
                assert(out@[j].channel_id.0 == k);
            }
            assert forall|i: int| 0 <= i < out@.len() implies self@.branches.contains_key(#[trigger] out@[i].channel_id.0) by {
                assert(keys@.contains(keys@[i]));
            }
            assert forall|i: int| 0 <= i < out@.len() implies {
                let b = self@.branches[#[trigger] out@[i].channel_id.0];
                &&& out@[i].message_count == b.message_count
                &&& out@[i].staleness.nanos == now.nanos_since(b.last_activity)
                &&& out@[i].earliest_unpruned == (if b.unpruned.len() > 0 { Some(b.unpruned[0]) } else { None::<Message> })
                &&& out@[i].latest == (if b.unpruned.len() > 0 {
                    Some(b.unpruned[b.unpruned.len() - 1])
                } else {
                    None::<Message>
                })
            } by {
                lemma_status_reports_the_branch(self@.branches[out@[i].channel_id.0], now);
            }
        }
        out
    }

    /// The branches idle at least `threshold` as of `now` that still have an
    /// unpruned message, each with that earliest unpruned message: the most
    /// idle first, ties by ascending channel id. Fully pruned branches are
    /// never surfaced: there is nothing left to tend.
    pub fn tend(&self, now: Timestamp, threshold: Span) -> (r: Vec<TendEntry>)
        ensures
            forall|i: int| 0 <= i < r@.len() ==> {
                &&& self@.branches.contains_key(#[trigger] r@[i].channel_id.0)
                &&& needs_tending(self@.branches[r@[i].channel_id.0], now, threshold)
                &&& r@[i] == tend_entry_of(self@.branches[r@[i].channel_id.0], now)
            },
            forall|i: int, j: int| 0 <= i < j < r@.len() ==> tended_before(r@[i], r@[j]),
            forall|k: u64| #[trigger] self@.branches.contains_key(k) && needs_tending(self@.branches[k], now, threshold)
                ==> exists|i: int| 0 <= i < r@.len() && #[trigger] r@[i].channel_id.0 == k,
            forall|i: int| 0 <= i < r@.len() ==> {
                let b = self@.branches[#[trigger] r@[i].channel_id.0];
                &&& r@[i].idle.nanos == now.nanos_since(b.last_activity)
                &&& r@[i].idle.nanos >= threshold.nanos
                &&& b.unpruned.len() > 0
                &&& r@[i].earliest_unpruned == b.unpruned[0]
            },
            forall|i: int, j: int| 0 <= i < j < r@.len() ==> {
                &&& #[trigger] r@[i].idle.nanos >= #[trigger] r@[j].idle.nanos
                &&& (r@[i].idle.nanos == r@[j].idle.nanos ==> r@[i].channel_id.0 < r@[j].channel_id.0)
            },
            forall|k: u64| #[trigger] self@.branches.contains_key(k) && now.nanos_since(self@.branches[k].last_activity)
                >= threshold.nanos && self@.branches[k].unpruned.len() > 0
                ==> exists|i: int| 0 <= i < r@.len() && #[trigger] r@[i].channel_id.0 == k,
    {
        proof {
            use_type_invariant(self);
        }
        let keys = sorted_keys(&self.branches);
        let mut out: Vec<TendEntry> = Vec::new();
        let n = keys.len();
        let mut i: usize = 0;
        while i < n
            invariant
                self.wf(),
                n == keys@.len(),
                0 <= i <= n,
                strictly_ascending(keys@),
                forall|k: u64| #[trigger] keys@.contains(k) <==> self@.branches.contains_key(k),
                forall|x: TendEntry| #[trigger] out@.contains(x) ==> {
                    &&& self@.branches.contains_key(x.channel_id.0)
                    &&& needs_tending(self@.branches[x.channel_id.0], now, threshold)
                    &&& x == tend_entry_of(self@.branches[x.channel_id.0], now)
                    &&& exists|m: int| 0 <= m < i && keys@[m] == x.channel_id.0
                },
                tend_ordered(out@),
                forall|m: int| 0 <= m < i && needs_tending(self@.branches[keys@[m]], now, threshold)
                    ==> exists|j: int| 0 <= j < out@.len() && #[trigger] out@[j].channel_id.0 == keys@[m],
            decreases n - i,
        {
            let key = keys[i];
            assert(keys@.contains(key));
            let found = match self.branches.get(&key) {
                Some(b) => b.tend_entry(now, threshold),
                None => {
                    assert(false);
                    None
                },
            };
            match found {
                Some(entry) => {
                    let ghost before = out@;
                    proof {
                        assert forall|j: int| 0 <= j < before.len() implies (#[trigger] before[j]).channel_id.0 < key by {
                            assert(before.contains(before[j]));
                            let m = choose|m: int| 0 <= m < i && keys@[m] == before[j].channel_id.0;
                            assert(keys@[m] < keys@[i as int]);
                        }
                    }
                    insert_tend_entry(&mut out, entry);
                    proof {
                        assert forall|x: TendEntry| #[trigger] out@.contains(x) implies {
                            &&& self@.branches.contains_key(x.channel_id.0)
                            &&& needs_tending(self@.branches[x.channel_id.0], now, threshold)
                            &&& x == tend_entry_of(self@.branches[x.channel_id.0], now)
                            &&& exists|m: int| 0 <= m < i + 1 && keys@[m] == x.channel_id.0
                        } by {
                            if before.contains(x) {
                                let m = choose|m: int| 0 <= m < i && keys@[m] == x.channel_id.0;
                                assert(0 <= m < i + 1 && keys@[m] == x.channel_id.0);
                            } else {
                                assert(keys@[i as int] == x.channel_id.0);
                            }
                        }
                        assert forall|m: int| 0 <= m < i + 1 && needs_tending(self@.branches[keys@[m]], now, threshold)
                            implies exists|j: int| 0 <= j < out@.len() && #[trigger] out@[j].channel_id.0 == keys@[m] by {
                            if m == i {
                                assert(out@.contains(entry));
                                let j = choose|j: int| 0 <= j < out@.len() && out@[j] == entry;
                                assert(out@[j].channel_id.0 == keys@[m]);
                            } else {
                                let j = choose|j: int| 0 <= j < before.len() && #[trigger] before[j].channel_id.0 == keys@[m];
                                assert(before.contains(before[j]));
                                assert(out@.contains(before[j]));
                                let j2 = choose|j2: int| 0 <= j2 < out@.len() && out@[j2] == before[j];
                                assert(out@[j2].channel_id.0 == keys@[m]);
                            }
                        }
                    }
                },
                None => {},
            }
            i = i + 1;
        }
        proof {
            assert forall|j: int| 0 <= j < out@.len() implies {
                &&& self@.branches.contains_key(#[trigger] out@[j].channel_id.0)
                &&& needs_tending(self@.branches[out@[j].channel_id.0], now, threshold)
                &&& out@[j] == tend_entry_of(self@.branches[out@[j].channel_id.0], now)
            } by {
                assert(out@.contains(out@[j]));
            }
            assert forall|k: u64| #[trigger] self@.branches.contains_key(k) && needs_tending(self@.branches[k], now, threshold)
                implies exists|i: int| 0 <= i < out@.len() && #[trigger] out@[i].channel_id.0 == k by {
                assert(keys@.contains(k));
                let m = choose|m: int| 0 <= m < keys@.len() && #[trigger] keys@[m] == k;
                assert(needs_tending(self@.branches[keys@[m]], now, threshold));
            }
            assert forall|i: int| 0 <= i < out@.len() implies {
                let b = self@.branches[#[trigger] out@[i].channel_id.0];
                &&& out@[i].idle.nanos == now.nanos_since(b.last_activity)
                &&& out@[i].idle.nanos >= threshold.nanos
                &&& b.unpruned.len() > 0
                &&& out@[i].earliest_unpruned == b.unpruned[0]
            } by {
                lemma_tend_surfaces_idle_branches(self@.branches[out@[i].channel_id.0], now, threshold);
            }
            assert forall|i: int, j: int| 0 <= i < j < out@.len() implies {
                &&& #[trigger] out@[i].idle.nanos >= #[trigger] out@[j].idle.nanos
                &&& (out@[i].idle.nanos == out@[j].idle.nanos ==> out@[i].channel_id.0 < out@[j].channel_id.0)
            } by {
                lemma_tend_order_is_by_idle_time(out@[i], out@[j]);
            }
            assert forall|k: u64| #[trigger] self@.branches.contains_key(k) && now.nanos_since(self@.branches[k].last_activity)
                >= threshold.nanos && self@.branches[k].unpruned.len() > 0
                implies exists|i: int| 0 <= i < out@.len() && #[trigger] out@[i].channel_id.0 == k by {
                lemma_tend_surfaces_idle_branches(self@.branches[k], now, threshold);
            }
        }
        out
    }

    /// The ids of every branch, ascending.
    pub fn channel_ids(&self) -> (r: Vec<ChannelId>)
        ensures
            forall|i: int, j: int| 0 <= i < j < r@.len() ==> r@[i].0 < r@[j].0,
            forall|k: u64| self@.branches.contains_key(k) <==> exists|i: int| 0 <= i < r@.len() && #[trigger] r@[i].0 == k,
    {
        let keys = sorted_keys(&self.branches);
        let mut out: Vec<ChannelId> = Vec::new();
        let n = keys.len();
        let mut i: usize = 0;
        while i < n
            invariant
                n == keys@.len(),
                0 <= i <= n,
                out@.len() == i,
                forall|j: int| 0 <= j < i ==> (#[trigger] out@[j]).0 == keys@[j],
            decreases n - i,
        {
            out.push(ChannelId(keys[i]));
            i = i + 1;
        }
        proof {
            assert forall|k: u64| self@.branches.contains_key(k) <==> exists|i: int| 0 <= i < out@.len() && #[trigger] out@[i].0 == k by {
                if self@.branches.contains_key(k) {
                    assert(keys@.contains(k));
                    let j = choose|j: int| 0 <= j < keys@.len() && keys@[j] == k;
                    assert(out@[j].0 == k);
                }
                if exists|i: int| 0 <= i < out@.len() && #[trigger] out@[i].0 == k {
                    let j = choose|j: int| 0 <= j < out@.len() && #[trigger] out@[j].0 == k;
                    assert(keys@[j] == k);
                    assert(keys@.contains(k));
                }
            }
        }
        out
    }

    /// The raw parts of every branch, in ascending channel id order, as a
    /// ledger stores them.
    pub fn branch_parts(&self) -> (r: Vec<BranchParts>)
        ensures
            forall|i: int, j: int| 0 <= i < j < r@.len() ==> r@[i].channel_id.0 < r@[j].channel_id.0,
            forall|k: u64| self@.branches.contains_key(k) <==> exists|i: int| 0 <= i < r@.len() && #[trigger] r@[i].channel_id.0 == k,
            forall|i: int| 0 <= i < r@.len() ==> parts_of(#[trigger] r@[i], self@.branches[r@[i].channel_id.0]),
    {
        proof {
            use_type_invariant(self);
        }
        let keys = sorted_keys(&self.branches);
        let mut out: Vec<BranchParts> = Vec::new();
        let n = keys.len();
        let mut i: usize = 0;
        while i < n
            invariant
                self.wf(),
                n == keys@.len(),
                0 <= i <= n,
                forall|k: u64| #[trigger] keys@.contains(k) <==> self@.branches.contains_key(k),
                out@.len() == i,
                forall|j: int| 0 <= j < i ==> (#[trigger] out@[j]).channel_id.0 == keys@[j]
                    && parts_of(out@[j], self@.branches[keys@[j]]),
            decreases n - i,
        {
            let key = keys[i];
            assert(keys@.contains(key));
            match self.branches.get(&key) {
                Some(b) => {
                    out.push(b.to_parts());
                },
                None => {
                    assert(false);
                },
            }
            i = i + 1;
        }
        proof {
            assert forall|k: u64| self@.branches.contains_key(k) <==> exists|i: int| 0 <= i < out@.len() && #[trigger] out@[i].channel_id.0 == k by {
                if self@.branches.contains_key(k) {
                    assert(keys@.contains(k));
                    let j = choose|j: int| 0 <= j < keys@.len() && keys@[j] == k;
                    assert(out@[j].channel_id.0 == k);
                }
                if exists|i: int| 0 <= i < out@.len() && #[trigger] out@[i].channel_id.0 == k {
                    let j = choose|j: int| 0 <= j < out@.len() && #[trigger] out@[j].channel_id.0 == k;
                    assert(keys@[j] == k);
                    assert(keys@.contains(k));
                }
            }
        }
        out
    }

    /// Rebuilds a store from ledger parts, as they were written: every branch
    /// is held to `cap`, and a later part for a channel replaces an earlier
    /// one. The history is kept as given.
    pub fn restore(parts: Vec<BranchParts>, history: Vec<PruneRecord>, cap: Option<usize>) -> (s: Store)
        ensures
            s.wf(),
            s@.branches == restored_branches(parts@, cap),
            s@.history == history@,
            s@.cap == cap,
    {
        let ghost ps = parts@;
        let mut branches: HashMap<u64, Branch> = HashMap::new();
        let mut rest = parts;
        // Parts are consumed from the back; the map is built from the front.
        let mut reversed: Vec<BranchParts> = Vec::new();
        while rest.len() > 0
            invariant
                ps == rest@ + reversed@.reverse(),
            decreases rest@.len(),
        {
            let p = rest.pop().unwrap();
            let ghost r0 = reversed@;
            reversed.push(p);
            proof {
                assert(reversed@.reverse() =~= seq![p] + r0.reverse());
            }
        }
        assert(ps =~= reversed@.reverse());
        let n = reversed.len();
        assert(ps.skip(0) =~= ps);
        assert(restored_branches(ps.take(0), cap) =~= Map::<u64, BranchView>::empty());
        assert(branches@.map_values(|b: Branch| b@) =~= Map::<u64, BranchView>::empty());
        let mut i: usize = 0;
        while i < n
            invariant
                0 <= i <= n,
                i + reversed@.len() == n,
                reversed@.reverse() == ps.skip(i as int),
                ps.len() == n,
                branches@.map_values(|b: Branch| b@) == restored_branches(ps.take(i as int), cap),
                forall|k: u64| #[trigger] branches@.contains_key(k) ==> {
                    &&& branches@[k]@.channel_id.0 == k
                    &&& (cap matches Some(c) ==> branches@[k]@.unpruned.len() <= c)
                },
            decreases n - i,
        {
            let ghost r0 = reversed@;
            let p = reversed.pop().unwrap();
            let ghost pv = p;
            proof {
                assert(pv == r0.reverse()[0]);
                assert(pv == ps[i as int]);
                assert forall|j: int| 0 <= j < reversed@.len() implies #[trigger] reversed@.reverse()[j] == ps.skip(i + 1)[j] by {
                    assert(reversed@.reverse()[j] == r0[r0.len() - 2 - j]);
                    assert(r0.reverse()[j + 1] == r0[r0.len() - 2 - j]);
                    assert(ps.skip(i as int)[j + 1] == ps.skip(i + 1)[j]);
                }
                assert(reversed@.reverse() =~= ps.skip(i + 1));
            }
            let key = p.channel_id.0;
            let mut b = Branch::restore(p);
            b.evict_to(cap);
            let ghost before = branches@;
            branches.insert(key, b);
            proof {
                let t = ps.take(i + 1);
                assert(t.drop_last() =~= ps.take(i as int));
                assert(t.last() == pv);
                assert(branches@.dom() =~= before.dom().insert(key));
                assert(branches@.map_values(|b: Branch| b@) =~= restored_branches(t, cap));
            }
            i = i + 1;
        }
        assert(ps.take(n as int) =~= ps);
        let s = Store { branches, history, max_messages_per_branch: cap };
        s
    }

    /// Every prune decision, oldest first, across all channels.
    pub fn history(&self) -> (r: &[PruneRecord])
        ensures
            r@ == self@.history,
    {
        self.history.as_slice()
    }

    /// The prune decisions of one channel, oldest first.
    pub fn history_for(&self, channel_id: ChannelId) -> (r: Vec<PruneRecord>)
        ensures
            r@ == self@.history_for(channel_id),
    {
        let mut out: Vec<PruneRecord> = Vec::new();
        let n = self.history.len();
        let mut i: usize = 0;
        while i < n
            invariant
                n == self.history@.len(),
                0 <= i <= n,
                out@ == self.history@.take(i as int).filter(|r: PruneRecord| r.channel_id == channel_id),
            decreases n - i,
        {
            let record = self.history[i];
            proof {
                reveal(Seq::filter);
                assert(self.history@.take(i + 1).drop_last() =~= self.history@.take(i as int));
            }
            if record.channel_id == channel_id {
                out.push(record);
            }
            i = i + 1;
        }
        assert(self.history@.take(n as int) =~= self.history@);
        out
    }

    /// The most unpruned messages a branch may hold, if limited.
    pub fn max_messages_per_branch(&self) -> (r: Option<usize>)
        ensures
            r == self@.cap,
    {
        self.max_messages_per_branch
    }
}

} // verus!
