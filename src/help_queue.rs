//! The help queue: outstanding help requests, one per group, served in
//! order of arrival.
//!
//! [`QueueState`] is the queue itself, a plain value whose operations have
//! exact contracts over its view: the sequence of live requests, oldest first.
//! [`HelpQueue`] shares one `QueueState` between threads behind a
//! reader-writer lock; each of its operations runs in a single critical
//! section.
use vstd::prelude::*;
use vstd::set_lib::{lemma_int_range, lemma_len_subset, set_int_range};
use vstd::rwlock::{RwLock, RwLockPredicate};
use std::sync::Arc;

use crate::request_map::{
    entries_of, has_key, map_clear, map_contains_key, map_get_index, map_insert, map_is_empty,
    map_len, map_new, map_shift_remove, RequestMap, Slot,
};
pub use crate::request_map::{Group, Rank, VoiceChannel};

verus! {

/// A live help request: the group and its voice channel.
pub type Request = (Group, VoiceChannel);

/// Why a queue operation failed.
#[derive(Debug, Clone, Copy, PartialEq, Eq, Structural)]
pub enum QueueError {
    /// The group already has a live request.
    DuplicateRequest,
    /// The group has no live request.
    NotFound,
    /// There is no live request at all.
    EmptyQueue,
    /// The lock that guards the queue was found broken. The lock used here is
    /// never poisoned, so no operation of this crate returns it; it is kept
    /// for hosts that guard a `QueueState` with a lock of their own.
    LockFailure,
}

/// Whether some request of `q` belongs to group `g`.
pub open spec fn holds_group(q: Seq<Request>, g: Group) -> bool {
    exists|i: int| 0 <= i < q.len() && #[trigger] q[i].0 == g
}

/// No two requests of `q` belong to the same group.
pub open spec fn distinct_groups(q: Seq<Request>) -> bool {
    forall|i: int, j: int| 0 <= i < j < q.len() ==> #[trigger] q[i].0 != #[trigger] q[j].0
}

/// The position of group `g`'s request in `q`.
pub open spec fn index_of(q: Seq<Request>, g: Group) -> int {
    choose|i: int| 0 <= i < q.len() && #[trigger] q[i].0 == g
}

/// The groups of `q`, in the same order.
pub open spec fn groups_of(q: Seq<Request>) -> Seq<Group> {
    q.map_values(|r: Request| r.0)
}

/// Outcome of enqueueing group `g` on `q`.
pub open spec fn enqueue_outcome(q: Seq<Request>, g: Group) -> Result<(), QueueError> {
    if holds_group(q, g) {
        Err(QueueError::DuplicateRequest)
    } else {
        Ok(())
    }
}

/// The requests after enqueueing `(g, c)` on `q`: a new group goes last, a
/// duplicate changes nothing.
pub open spec fn after_enqueue(q: Seq<Request>, g: Group, c: VoiceChannel) -> Seq<Request> {
    if holds_group(q, g) {
        q
    } else {
        q.push((g, c))
    }
}

/// Outcome of serving the next request of `q`: the oldest one.
pub open spec fn next_outcome(q: Seq<Request>) -> Result<Request, QueueError> {
    if q.len() == 0 {
        Err(QueueError::EmptyQueue)
    } else {
        Ok(q[0])
    }
}

/// The requests after serving the next one of `q`.
pub open spec fn after_next(q: Seq<Request>) -> Seq<Request> {
    if q.len() == 0 {
        q
    } else {
        q.drop_first()
    }
}

/// Outcome of dismissing group `g`'s request from `q`.
pub open spec fn dismiss_outcome(q: Seq<Request>, g: Group) -> Result<Request, QueueError> {
    if holds_group(q, g) {
        Ok(q[index_of(q, g)])
    } else {
        Err(QueueError::NotFound)
    }
}

/// The requests after dismissing group `g`'s request from `q`.
pub open spec fn after_dismiss(q: Seq<Request>, g: Group) -> Seq<Request> {
    if holds_group(q, g) {
        q.remove(index_of(q, g))
    } else {
        q
    }
}

/// Requests of distinct groups number at most as many as there are groups.
proof fn lemma_distinct_groups_bound(q: Seq<Request>)
    requires
        distinct_groups(q),
    ensures
        q.len() <= 0x10000,
{
    let ks = q.map_values(|r: Request| r.0 as int);
    assert(ks.no_duplicates()) by {
        assert forall|i: int, j: int| 0 <= i < ks.len() && 0 <= j < ks.len() && i != j implies ks[i]
            != ks[j] by {
            if i < j {
                assert(q[i].0 != q[j].0);
            } else {
                assert(q[j].0 != q[i].0);
            }
        }
    }
    ks.unique_seq_to_set();
    lemma_int_range(0, 0x10000);
    assert(ks.to_set().subset_of(set_int_range(0, 0x10000))) by {
        assert forall|x: int| ks.to_set().contains(x) implies set_int_range(0, 0x10000).contains(
            x,
        ) by {
            assert(ks.contains(x));
            let i = choose|i: int| 0 <= i < ks.len() && ks[i] == x;
            assert(ks[i] == q[i].0 as int);
        }
    }
    lemma_len_subset(ks.to_set(), set_int_range(0, 0x10000));
}

/// The live requests with their arrival ranks, in the queue's order.
pub struct QueueState {
    /// Group to voice channel and arrival rank, in order of arrival.
    entries: RequestMap,
    /// The rank the next request gets: above every rank handed out so far,
    /// so a newcomer never overtakes a request that is still waiting.
    next_rank: Rank,
}

impl View for QueueState {
    type V = Seq<Request>;

    closed spec fn view(&self) -> Seq<Request> {
        entries_of(self.entries).map_values(|e: (Group, Slot)| (e.0, e.1.0))
    }
}

impl QueueState {
    /// The arrival ranks of the live requests, in the queue's order.
    pub closed spec fn ranks(&self) -> Seq<Rank> {
        entries_of(self.entries).map_values(|e: (Group, Slot)| e.1.1)
    }

    /// One request per group; ranks strictly ascend along the queue's order
    /// and all lie below the rank that the next request will get.
    pub closed spec fn wf(&self) -> bool {
        let e = entries_of(self.entries);
        &&& forall|i: int, j: int| 0 <= i < j < e.len() ==> #[trigger] e[i].0 != #[trigger] e[j].0
        &&& forall|i: int, j: int|
            0 <= i < j < e.len() ==> #[trigger] e[i].1.1 < #[trigger] e[j].1.1
        &&& forall|i: int| 0 <= i < e.len() ==> #[trigger] e[i].1.1 < self.next_rank
    }

    proof fn lemma_view(&self)
        ensures
            self@.len() == entries_of(self.entries).len(),
            self.ranks().len() == entries_of(self.entries).len(),
            forall|i: int|
                0 <= i < self@.len() ==> #[trigger] self@[i] == (
                    entries_of(self.entries)[i].0,
                    entries_of(self.entries)[i].1.0,
                ),
            forall|i: int|
                0 <= i < self@.len() ==> #[trigger] self.ranks()[i] == entries_of(
                    self.entries,
                )[i].1.1,
            forall|g: Group| has_key(entries_of(self.entries), g) == holds_group(self@, g),
    {
        let e = entries_of(self.entries);
        assert forall|g: Group| has_key(e, g) == holds_group(self@, g) by {
            if has_key(e, g) {
                let i = choose|i: int| 0 <= i < e.len() && #[trigger] e[i].0 == g;
                assert(self@[i].0 == g);
            }
            if holds_group(self@, g) {
                let i = choose|i: int| 0 <= i < self@.len() && #[trigger] self@[i].0 == g;
                assert(e[i].0 == g);
            }
        }
    }

    /// An empty queue.
    pub fn new() -> (s: QueueState)
        ensures
            s.wf(),
            s@ == Seq::<Request>::empty(),
    {
        let s = QueueState { entries: map_new(), next_rank: 0 };
        proof {
            s.lemma_view();
        }
        assert(s@ =~= Seq::<Request>::empty());
        s
    }

    /// The number of live requests.
    pub fn len(&self) -> (n: usize)
        requires
            self.wf(),
        ensures
            n == self@.len(),
    {
        proof {
            self.lemma_view();
        }
        map_len(&self.entries)
    }

    /// Whether no request is live.
    pub fn is_empty(&self) -> (b: bool)
        requires
            self.wf(),
        ensures
            b == (self@.len() == 0),
    {
        proof {
            self.lemma_view();
        }
        map_is_empty(&self.entries)
    }

    /// Gives the live requests the ranks 0, 1, 2, ... in their order, so that
    /// the counter of ranks starts again from the number of requests.
    fn renumber(&mut self)
        requires
            old(self).wf(),
        ensures
            final(self).wf(),
            final(self)@ == old(self)@,
            final(self).next_rank as int == final(self)@.len(),
            final(self)@.len() <= 0x10000,
    {
        proof {
            self.lemma_view();
            assert(distinct_groups(self@));
            lemma_distinct_groups_bound(self@);
        }
        let ghost e = entries_of(self.entries);
        let n = map_len(&self.entries);
        let mut fresh = map_new();
        let mut i: usize = 0;
        while i < n
            invariant
                e == entries_of(self.entries),
                n == e.len(),
                n <= 0x10000,
                forall|a: int, b: int| 0 <= a < b < e.len() ==> #[trigger] e[a].0 != #[trigger] e[b].0,
                i <= n,
                entries_of(fresh).len() == i,
                forall|j: int|
                    0 <= j < i ==> #[trigger] entries_of(fresh)[j] == (e[j].0, (e[j].1.0, j as Rank)),
            decreases n - i,
        {
            match map_get_index(&self.entries, i) {
                Some((group, (voice_channel, _))) => {
                    let ghost f = entries_of(fresh);
                    proof {
                        if has_key(f, group) {
                            let j = choose|j: int| 0 <= j < f.len() && #[trigger] f[j].0 == group;
                            assert(e[j].0 == e[i as int].0);
                        }
                    }
                    let _ = map_insert(&mut fresh, group, (voice_channel, i));
                    assert(entries_of(fresh) == f.push((group, (voice_channel, i))));
                },
                None => {},
            }
            i = i + 1;
        }
        self.entries = fresh;
        self.next_rank = n;
        proof {
            let f = entries_of(self.entries);
            assert(f.map_values(|x: (Group, Slot)| (x.0, x.1.0)) =~= e.map_values(
                |x: (Group, Slot)| (x.0, x.1.0),
            ));
        }
    }

    /// Adds a request for `group` on `voice_channel` behind all live ones. The
    /// existence check, the choice of rank and the insertion happen as one
    /// step; a group that already has a live request is refused and the queue
    /// stays as it was.
    pub fn enqueue(&mut self, group: Group, voice_channel: VoiceChannel) -> (r: Result<
        (),
        QueueError,
    >)
        requires
            old(self).wf(),
        ensures
            final(self).wf(),
            r == enqueue_outcome(old(self)@, group),
            final(self)@ == after_enqueue(old(self)@, group, voice_channel),
    {
        proof {
            self.lemma_view();
        }
        if map_contains_key(&self.entries, group) {
            return Err(QueueError::DuplicateRequest);
        }
        let ghost q = self@;
        if self.next_rank == Rank::MAX {
            self.renumber();
        }
        proof {
            self.lemma_view();
        }
        let rank = self.next_rank;
        let ghost e = entries_of(self.entries);
        let _ = map_insert(&mut self.entries, group, (voice_channel, rank));
        self.next_rank = rank + 1;
        proof {
            self.lemma_view();
            assert(entries_of(self.entries) == e.push((group, (voice_channel, rank))));
            assert(self@ =~= q.push((group, voice_channel)));
        }
        Ok(())
    }

    /// Removes group `group`'s request, wherever it stands.
    fn remove(&mut self, group: Group) -> (r: Result<Request, QueueError>)
        requires
            old(self).wf(),
        ensures
            final(self).wf(),
            r == dismiss_outcome(old(self)@, group),
            final(self)@ == after_dismiss(old(self)@, group),
    {
        proof {
            self.lemma_view();
        }
        let ghost q = self@;
        let ghost e = entries_of(self.entries);
        let removed = map_shift_remove(&mut self.entries, group);
        proof {
            self.lemma_view();
            if holds_group(q, group) {
                let i = choose|i: int|
                    0 <= i < e.len() && #[trigger] e[i].0 == group && removed == Some(e[i].1)
                        && entries_of(self.entries) == e.remove(i);
                let k = index_of(q, group);
                assert(q[k].0 == group);
                assert(k == i);
                assert(self@ =~= q.remove(i));
            } else {
                assert(self@ =~= q);
            }
        }
        match removed {
            Some((voice_channel, _)) => Ok((group, voice_channel)),
            None => Err(QueueError::NotFound),
        }
    }

    /// Withdraws group `group`'s request, wherever it stands, and returns it.
    pub fn dismiss(&mut self, group: Group) -> (r: Result<Request, QueueError>)
        requires
            old(self).wf(),
        ensures
            final(self).wf(),
            r == dismiss_outcome(old(self)@, group),
            final(self)@ == after_dismiss(old(self)@, group),
    {
        self.remove(group)
    }

    /// Serves the request that has waited longest, the one with the smallest
    /// arrival rank, and returns it. `helper` names who serves; the queue does
    /// not keep it.
    pub fn next(&mut self, helper: &str) -> (r: Result<Request, QueueError>)
        requires
            old(self).wf(),
        ensures
            final(self).wf(),
            r == next_outcome(old(self)@),
            final(self)@ == after_next(old(self)@),
            forall|i: int|
                0 <= i < old(self).ranks().len() ==> old(self).ranks()[0] <= #[trigger] old(
                    self,
                ).ranks()[i],
    {
        proof {
            self.lemma_view();
        }
        let ghost q = self@;
        match map_get_index(&self.entries, 0) {
            None => Err(QueueError::EmptyQueue),
            Some((group, _)) => {
                proof {
                    assert(q[0].0 == group);
                    let k = index_of(q, group);
                    assert(q[k].0 == group);
                    assert(k == 0);
                    assert(q.remove(0) =~= q.drop_first());
                }
                self.remove(group)
            },
        }
    }

    /// Withdraws every request.
    pub fn clear(&mut self)
        requires
            old(self).wf(),
        ensures
            final(self).wf(),
            final(self)@ == Seq::<Request>::empty(),
    {
        map_clear(&mut self.entries);
        self.next_rank = 0;
        proof {
            self.lemma_view();
        }
        assert(self@ =~= Seq::<Request>::empty());
    }

    /// The groups of the live requests, oldest first: a copy that later
    /// changes to the queue do not touch.
    pub fn sorted(&self) -> (r: Vec<Group>)
        requires
            self.wf(),
        ensures
            r@ == groups_of(self@),
    {
        proof {
            self.lemma_view();
        }
        let n = map_len(&self.entries);
        let mut out: Vec<Group> = Vec::new();
        let mut i: usize = 0;
        while i < n
            invariant
                n == self@.len(),
                i <= n,
                out@.len() == i,
                forall|j: int| 0 <= j < i ==> #[trigger] out@[j] == self@[j].0,
            decreases n - i,
        {
            match map_get_index(&self.entries, i) {
                Some((group, _)) => {
                    out.push(group);
                },
                None => {},
            }
            i = i + 1;
        }
        assert(out@ =~= groups_of(self@));
        out
    }
}

/// What the lock of a [`HelpQueue`] keeps true of the state it guards.
pub struct WellFormed;

impl RwLockPredicate<QueueState> for WellFormed {
    open spec fn inv(self, s: QueueState) -> bool {
        s.wf()
    }
}

/// A help queue shared between threads: one [`QueueState`] behind a
/// reader-writer lock. Each operation takes the lock once, for its whole
/// work, so no caller sees a half-done change; reads share the lock, changes
/// hold it alone.
pub struct HelpQueue {
    queue: RwLock<QueueState, WellFormed>,
}

impl HelpQueue {
    /// An empty queue, ready to be shared.
    pub fn new() -> (r: Result<Arc<HelpQueue>, QueueError>)
        ensures
            r is Ok,
    {
        let state = QueueState::new();
        Ok(Arc::new(HelpQueue { queue: RwLock::new(state, Ghost(WellFormed)) }))
    }

    /// Adds a request for `group` on `voice_channel` behind all live ones;
    /// fails with `DuplicateRequest` if the group already has one.
    pub fn enqueue(&self, group: Group, voice_channel: VoiceChannel) -> (r: Result<(), QueueError>)
        ensures
            r is Ok || r == Err::<(), QueueError>(QueueError::DuplicateRequest),
    {
        let (mut state, handle) = self.queue.acquire_write();
        let r = state.enqueue(group, voice_channel);
        handle.release_write(state);
        r
    }

    /// Serves the request that has waited longest and returns it; fails with
    /// `EmptyQueue` if there is none.
    pub fn next(&self, helper: &str) -> (r: Result<Request, QueueError>)
        ensures
            r is Ok || r == Err::<Request, QueueError>(QueueError::EmptyQueue),
    {
        let (mut state, handle) = self.queue.acquire_write();
        let r = state.next(helper);
        handle.release_write(state);
        r
    }

    /// Withdraws group `group`'s request and returns it; fails with
    /// `NotFound` if the group has none.
    pub fn dismiss(&self, group: Group) -> (r: Result<Request, QueueError>)
        ensures
            r is Ok ==> r->Ok_0.0 == group,
            r is Err ==> r == Err::<Request, QueueError>(QueueError::NotFound),
    {
        let (mut state, handle) = self.queue.acquire_write();
        let r = state.dismiss(group);
        handle.release_write(state);
        r
    }

    /// Withdraws every request.
    pub fn clear(&self) -> (r: Result<(), QueueError>)
        ensures
            r is Ok,
    {
        let (mut state, handle) = self.queue.acquire_write();
        state.clear();
        handle.release_write(state);
        Ok(())
    }

    /// The number of live requests.
    pub fn len(&self) -> (r: Result<usize, QueueError>)
        ensures
            r is Ok,
    {
        let handle = self.queue.acquire_read();
        let n = handle.borrow().len();
        handle.release_read();
        Ok(n)
    }

    /// Whether no request is live.
    pub fn is_empty(&self) -> (r: Result<bool, QueueError>)
        ensures
            r is Ok,
    {
        let handle = self.queue.acquire_read();
        let b = handle.borrow().is_empty();
        handle.release_read();
        Ok(b)
    }

    /// The groups of the live requests, oldest first, as one snapshot taken
    /// under the lock. No group appears twice.
    pub fn sorted(&self) -> (r: Result<Vec<Group>, QueueError>)
        ensures
            r is Ok,
            r is Ok ==> r->Ok_0@.no_duplicates(),
    {
        let handle = self.queue.acquire_read();
        let state = handle.borrow();
        let groups = state.sorted();
        proof {
            state.lemma_view();
            assert(distinct_groups(state@));
            assert forall|i: int, j: int|
                0 <= i < groups@.len() && 0 <= j < groups@.len() && i != j implies groups@[i]
                != groups@[j] by {
                if i < j {
                    assert(state@[i].0 != state@[j].0);
                } else {
                    assert(state@[j].0 != state@[i].0);
                }
            }
        }
        handle.release_read();
        Ok(groups)
    }
}

} // verus!
