//! Requests and the order in which a behavior presents them.

use vstd::prelude::*;
use vstd::relations::{sorted_by, total_ordering};
use vstd::seq_lib::{lemma_sorted_unique, to_multiset_build, to_multiset_insert};
use crate::model::{fresh_request, RequestState};

verus! {

/// A request for a resource: the claim of one behavior on one resource, and
/// the unit of that resource's wait queue.
#[derive(Clone, Copy, Debug)]
pub struct Request {
    /// The number of the resource that this request wants to access.
    pub target: usize,
    /// The behavior to wake when this request gives the resource up.
    pub next: Option<usize>,
    /// Whether the behavior of this request has finished enqueueing.
    pub scheduled: bool,
}

impl View for Request {
    type V = RequestState;

    open spec fn view(&self) -> RequestState {
        RequestState {
            target: self.target as nat,
            next: match self.next {
                Some(b) => Some(b as nat),
                None => None,
            },
            scheduled: self.scheduled,
        }
    }
}

impl Request {
    /// Creates a request for the resource `target`.
    pub fn new(target: usize) -> (r: Request)
        ensures
            r@ == fresh_request(target as nat),
    {
        Request { target, next: None, scheduled: false }
    }

}

/// The resources that a list of requests asks for.
pub open spec fn targets_of(requests: Seq<Request>) -> Seq<nat> {
    Seq::new(requests.len(), |i: int| requests[i].target as nat)
}

/// The order of the resources.
pub open spec fn at_most() -> spec_fn(nat, nat) -> bool {
    |x: nat, y: nat| x <= y
}

/// The resources `targets` in rising order.
pub open spec fn in_order(targets: Seq<nat>) -> Seq<nat> {
    targets.sort_by(at_most())
}

/// Each entry is below the next ones.
pub open spec fn strictly_rising(targets: Seq<nat>) -> bool {
    forall|i: int, j: int| 0 <= i < j < targets.len() ==> targets[i] < targets[j]
}

pub proof fn lemma_at_most_total()
    ensures
        total_ordering(at_most()),
{
}

/// What `in_order` returns: the same resources, each as often as before, in
/// rising order.
pub proof fn lemma_in_order(targets: Seq<nat>)
    ensures
        in_order(targets).to_multiset() == targets.to_multiset(),
        in_order(targets).len() == targets.len(),
        sorted_by(in_order(targets), at_most()),
        forall|i: int, j: int|
            0 <= i < j < targets.len() ==> in_order(targets)[i] <= in_order(targets)[j],
{
    lemma_at_most_total();
    targets.lemma_sort_by_ensures(at_most());
    vstd::seq_lib::to_multiset_len(targets);
    vstd::seq_lib::to_multiset_len(in_order(targets));
    let t = in_order(targets);
    assert forall|i: int, j: int| 0 <= i < j < targets.len() implies t[i] <= t[j] by {
        assert(at_most()(t[i], t[j]));
    }
}

/// `in_order` is the only way to put resources in rising order: a list in
/// rising order that holds each resource as often as `targets` does is
/// `in_order(targets)`.  In particular a list in rising order is left as it
/// is.
pub proof fn lemma_in_order_unique(targets: Seq<nat>, rising: Seq<nat>)
    requires
        forall|i: int, j: int| 0 <= i < j < rising.len() ==> rising[i] <= rising[j],
        rising.to_multiset() == targets.to_multiset(),
    ensures
        in_order(targets) == rising,
{
    lemma_in_order(targets);
    lemma_at_most_total();
    assert(sorted_by(rising, at_most()));
    lemma_sorted_unique(in_order(targets), rising, at_most());
}

/// Sorting keeps a list free of duplicates, and only such a list.
pub proof fn lemma_in_order_duplicates(targets: Seq<nat>)
    ensures
        in_order(targets).no_duplicates() <==> targets.no_duplicates(),
{
    lemma_in_order(targets);
    let t = in_order(targets);
    if targets.no_duplicates() {
        targets.lemma_multiset_has_no_duplicates();
        t.lemma_multiset_has_no_duplicates_conv();
    }
    if t.no_duplicates() {
        t.lemma_multiset_has_no_duplicates();
        targets.lemma_multiset_has_no_duplicates_conv();
    }
}

/// Sorting neither adds a resource nor drops one.
pub proof fn lemma_in_order_contains(targets: Seq<nat>)
    ensures
        forall|x: nat| in_order(targets).contains(x) <==> targets.contains(x),
{
    lemma_in_order(targets);
    assert forall|x: nat| in_order(targets).contains(x) <==> targets.contains(x) by {
        vstd::seq_lib::to_multiset_contains(targets, x);
        vstd::seq_lib::to_multiset_contains(in_order(targets), x);
    }
}

/// A list in rising order is free of duplicates exactly when it rises
/// strictly, and that shows in each pair of neighbours.
pub proof fn lemma_rising_duplicates(t: Seq<nat>)
    requires
        forall|i: int, j: int| 0 <= i < j < t.len() ==> t[i] <= t[j],
    ensures
        t.no_duplicates() <==> strictly_rising(t),
        strictly_rising(t) <==> (forall|i: int| 0 <= i < t.len() - 1 ==> #[trigger] t[i] != t[i + 1]),
{
    if forall|i: int| 0 <= i < t.len() - 1 ==> #[trigger] t[i] != t[i + 1] {
        assert forall|i: int, j: int| 0 <= i < j < t.len() implies t[i] < t[j] by {}
    }
    if t.no_duplicates() {
        assert forall|i: int, j: int| 0 <= i < j < t.len() implies t[i] < t[j] by {}
    }
}

/// The requests of `requests` that ask for `target`, in their order.
pub open spec fn asking_for(requests: Seq<Request>, target: nat) -> Seq<Request>
    decreases requests.len(),
{
    if requests.len() == 0 {
        Seq::empty()
    } else {
        let before = asking_for(requests.drop_last(), target);
        if requests.last().target == target {
            before.push(requests.last())
        } else {
            before
        }
    }
}

/// A request put at the end comes last among those for its resource, and
/// leaves the requests for the other resources as they are.
proof fn lemma_asking_push(requests: Seq<Request>, r: Request, target: nat)
    ensures
        asking_for(requests.push(r), target) == if r.target == target {
            asking_for(requests, target).push(r)
        } else {
            asking_for(requests, target)
        },
{
    assert(requests.push(r).drop_last() =~= requests);
}

/// None of the requests asks for `target`.
proof fn lemma_asking_none(requests: Seq<Request>, target: nat)
    requires
        forall|k: int| 0 <= k < requests.len() ==> requests[k].target != target,
    ensures
        asking_for(requests, target) == Seq::<Request>::empty(),
    decreases requests.len(),
{
    if requests.len() > 0 {
        lemma_asking_none(requests.drop_last(), target);
    }
}

/// The requests for a resource in two lists, one after the other.
proof fn lemma_asking_add(a: Seq<Request>, b: Seq<Request>, target: nat)
    ensures
        asking_for(a + b, target) == asking_for(a, target) + asking_for(b, target),
    decreases b.len(),
{
    if b.len() == 0 {
        assert(a + b =~= a);
        assert(asking_for(a, target) + asking_for(b, target) =~= asking_for(a, target));
    } else {
        assert((a + b).drop_last() =~= a + b.drop_last());
        lemma_asking_add(a, b.drop_last(), target);
        let front = asking_for(a, target) + asking_for(b.drop_last(), target);
        if b.last().target == target {
            assert(front.push(b.last()) =~= asking_for(a, target) + asking_for(
                b.drop_last(),
                target,
            ).push(b.last()));
        }
    }
}

/// A request put behind every request for its own or a lower resource, and
/// before every request for a higher one, comes last among those for its
/// resource, and leaves the requests for the other resources as they are.
proof fn lemma_asking_insert(requests: Seq<Request>, j: int, r: Request, target: nat)
    requires
        0 <= j <= requests.len(),
        forall|k: int| j <= k < requests.len() ==> requests[k].target > r.target,
    ensures
        asking_for(requests.insert(j, r), target) == if r.target == target {
            asking_for(requests, target).push(r)
        } else {
            asking_for(requests, target)
        },
{
    let front = requests.subrange(0, j);
    let back = requests.subrange(j, requests.len() as int);
    assert(requests =~= front + back);
    assert(requests.insert(j, r) =~= front.push(r) + back);
    lemma_asking_add(front, back, target);
    lemma_asking_add(front.push(r), back, target);
    lemma_asking_push(front, r, target);
    if r.target == target {
        lemma_asking_none(back, target);
        assert(asking_for(front, target).push(r) + Seq::<Request>::empty() =~= asking_for(
            front,
            target,
        ).push(r));
        assert(asking_for(front, target) + Seq::<Request>::empty() =~= asking_for(front, target));
    }
}

/// Sorts requests by the resource they ask for.  Requests for one resource
/// keep their order.
pub fn sort_requests(requests: Vec<Request>) -> (sorted: Vec<Request>)
    ensures
        sorted@.len() == requests@.len(),
        targets_of(sorted@) == in_order(targets_of(requests@)),
        sorted@.to_multiset() == requests@.to_multiset(),
        forall|target: nat| asking_for(sorted@, target) == asking_for(requests@, target),
{
    let mut sorted: Vec<Request> = Vec::new();
    let mut i: usize = 0;
    proof {
        assert(requests@.take(0) =~= Seq::<Request>::empty());
    }
    while i < requests.len()
        invariant
            i <= requests.len(),
            sorted@.len() == i,
            sorted_by(targets_of(sorted@), at_most()),
            targets_of(sorted@).to_multiset() == targets_of(requests@.take(i as int)).to_multiset(),
            sorted@.to_multiset() == requests@.take(i as int).to_multiset(),
            forall|target: nat|
                asking_for(sorted@, target) == asking_for(requests@.take(i as int), target),
        decreases requests.len() - i,
    {
        let r = requests[i];
        let mut j: usize = 0;
        while j < sorted.len() && sorted[j].target <= r.target
            invariant
                j <= sorted.len(),
                forall|k: int| 0 <= k < j ==> sorted@[k].target <= r.target,
            decreases sorted.len() - j,
        {
            j += 1;
        }
        let ghost before = sorted@;
        sorted.insert(j, r);
        proof {
            let t0 = targets_of(before);
            let t1 = targets_of(sorted@);
            assert(t1 =~= t0.insert(j as int, r.target as nat));
            to_multiset_insert(t0, j as int, r.target as nat);
            to_multiset_insert(before, j as int, r);
            assert(requests@.take(i + 1) =~= requests@.take(i as int).push(r));
            assert(targets_of(requests@.take(i + 1)) =~= targets_of(requests@.take(i as int)).push(
                r.target as nat,
            ));
            to_multiset_build(targets_of(requests@.take(i as int)), r.target as nat);
            to_multiset_build(requests@.take(i as int), r);
            assert forall|k: int| j <= k < before.len() implies before[k].target > r.target by {
                if j < k {
                    assert(at_most()(t0[j as int], t0[k]));
                }
            }
            assert forall|target: nat| asking_for(sorted@, target) == asking_for(
                requests@.take(i + 1),
                target,
            ) by {
                lemma_asking_insert(before, j as int, r, target);
                lemma_asking_push(requests@.take(i as int), r, target);
            }
            assert forall|a: int, b: int| 0 <= a < b < t1.len() implies #[trigger] at_most()(
                t1[a],
                t1[b],
            ) by {
                if a == j && j < b - 1 {
                    assert(at_most()(t0[j as int], t0[b - 1]));
                }
            }
        }
        i += 1;
    }
    proof {
        assert(requests@.take(requests@.len() as int) =~= requests@);
        assert forall|i: int, j: int| 0 <= i < j < sorted@.len() implies targets_of(sorted@)[i]
            <= targets_of(sorted@)[j] by {
            assert(at_most()(targets_of(sorted@)[i], targets_of(sorted@)[j]));
        }
        lemma_in_order_unique(targets_of(requests@), targets_of(sorted@));
    }
    sorted
}

} // verus!
