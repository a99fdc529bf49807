//! Properties of the help queue that relate several operations, stated over
//! the model that the operations' contracts use and proved from it.
use vstd::prelude::*;

use crate::help_queue::{
    after_dismiss, after_enqueue, after_next, dismiss_outcome, distinct_groups, enqueue_outcome,
    holds_group, index_of, next_outcome, Group, QueueError, Request, VoiceChannel,
};

verus! {

/// The requests after enqueueing each of `reqs` on `q`, in order.
pub open spec fn enqueue_all(q: Seq<Request>, reqs: Seq<Request>) -> Seq<Request>
    decreases reqs.len(),
{
    if reqs.len() == 0 {
        q
    } else {
        let last = reqs.last();
        after_enqueue(enqueue_all(q, reqs.drop_last()), last.0, last.1)
    }
}

/// What serving requests from `q` until it is empty hands out, in order.
pub open spec fn drain(q: Seq<Request>) -> Seq<Request>
    decreases q.len(),
{
    if q.len() == 0 {
        Seq::empty()
    } else {
        seq![q[0]].add(drain(after_next(q)))
    }
}

proof fn lemma_distinct_enqueues_build(reqs: Seq<Request>)
    requires
        distinct_groups(reqs),
    ensures
        enqueue_all(Seq::empty(), reqs) == reqs,
    decreases reqs.len(),
{
    if reqs.len() > 0 {
        let init = reqs.drop_last();
        lemma_distinct_enqueues_build(init);
        let last = reqs.last();
        assert(!holds_group(init, last.0)) by {
            if holds_group(init, last.0) {
                let i = choose|i: int| 0 <= i < init.len() && #[trigger] init[i].0 == last.0;
                assert(reqs[i].0 != reqs[reqs.len() - 1].0);
            }
        }
        assert(init.push(last) =~= reqs);
    }
}

/// Enqueueing requests of distinct groups on an empty queue accepts every
/// one of them: the queue then holds exactly those requests, in that order,
/// so its length is their number.
pub proof fn lemma_distinct_enqueues_all_accepted(reqs: Seq<Request>)
    requires
        distinct_groups(reqs),
    ensures
        enqueue_all(Seq::empty(), reqs) == reqs,
        enqueue_all(Seq::empty(), reqs).len() == reqs.len(),
        forall|k: int|
            0 <= k < reqs.len() ==> enqueue_outcome(
                enqueue_all(Seq::empty(), reqs.take(k)),
                #[trigger] reqs[k].0,
            ) == Ok::<(), QueueError>(()),
{
    lemma_distinct_enqueues_build(reqs);
    assert forall|k: int| 0 <= k < reqs.len() implies enqueue_outcome(
        enqueue_all(Seq::empty(), reqs.take(k)),
        #[trigger] reqs[k].0,
    ) == Ok::<(), QueueError>(()) by {
        let pre = reqs.take(k);
        assert(distinct_groups(pre));
        lemma_distinct_enqueues_build(pre);
        if holds_group(pre, reqs[k].0) {
            let i = choose|i: int| 0 <= i < pre.len() && #[trigger] pre[i].0 == reqs[k].0;
            assert(reqs[i].0 != reqs[k].0);
        }
    }
}

/// Enqueueing a group a second time, whatever the channel, fails with
/// `DuplicateRequest` and leaves the queue, and so its length, unchanged.
pub proof fn lemma_duplicate_enqueue_refused(
    q: Seq<Request>,
    g: Group,
    c: VoiceChannel,
    c2: VoiceChannel,
)
    ensures
        enqueue_outcome(after_enqueue(q, g, c), g) == Err::<(), QueueError>(
            QueueError::DuplicateRequest,
        ),
        after_enqueue(after_enqueue(q, g, c), g, c2) == after_enqueue(q, g, c),
        after_enqueue(after_enqueue(q, g, c), g, c2).len() == after_enqueue(q, g, c).len(),
{
    let q1 = after_enqueue(q, g, c);
    if !holds_group(q, g) {
        assert(q1[q.len() as int].0 == g);
    }
    assert(holds_group(q1, g));
}

/// Dismissing a group that has a live request removes that request and no
/// other: the length drops by exactly one, the group no longer has a request,
/// and the requests before and after it keep their order.
pub proof fn lemma_dismiss_removes_only_that_group(q: Seq<Request>, g: Group)
    requires
        distinct_groups(q),
        holds_group(q, g),
    ensures
        dismiss_outcome(q, g) is Ok,
        dismiss_outcome(q, g)->Ok_0.0 == g,
        after_dismiss(q, g).len() == q.len() - 1,
        !holds_group(after_dismiss(q, g), g),
        distinct_groups(after_dismiss(q, g)),
        exists|i: int|
            0 <= i < q.len() && #[trigger] q[i].0 == g && after_dismiss(q, g) == q.subrange(0, i).add(
                q.subrange(i + 1, q.len() as int),
            ),
{
    let i = index_of(q, g);
    assert(q[i].0 == g);
    let r = after_dismiss(q, g);
    assert(r =~= q.subrange(0, i).add(q.subrange(i + 1, q.len() as int)));
    assert(!holds_group(r, g)) by {
        if holds_group(r, g) {
            let j = choose|j: int| 0 <= j < r.len() && #[trigger] r[j].0 == g;
            if j < i {
                assert(q[j].0 != q[i].0);
            } else {
                assert(q[i].0 != q[j + 1].0);
            }
        }
    }
}

/// Once every request is withdrawn the queue is empty and serving the next
/// request fails with `EmptyQueue`.
pub proof fn lemma_cleared_queue_has_no_next()
    ensures
        Seq::<Request>::empty().len() == 0,
        next_outcome(Seq::empty()) == Err::<Request, QueueError>(QueueError::EmptyQueue),
        after_next(Seq::<Request>::empty()) == Seq::<Request>::empty(),
{
}

/// Serving until the queue is empty hands out every live request once, in
/// order of arrival.
pub proof fn lemma_drain_is_arrival_order(q: Seq<Request>)
    ensures
        drain(q) == q,
    decreases q.len(),
{
    if q.len() > 0 {
        lemma_drain_is_arrival_order(after_next(q));
        assert(seq![q[0]].add(q.drop_first()) =~= q);
    }
}

/// Requests of distinct groups, enqueued and then served until the queue is
/// empty, come out exactly as they went in: none lost, none twice, and no
/// group handed out by two services.
pub proof fn lemma_enqueue_then_drain(reqs: Seq<Request>)
    requires
        distinct_groups(reqs),
    ensures
        drain(enqueue_all(Seq::empty(), reqs)) == reqs,
        distinct_groups(drain(enqueue_all(Seq::empty(), reqs))),
{
    lemma_distinct_enqueues_all_accepted(reqs);
    lemma_drain_is_arrival_order(reqs);
}

} // verus!
