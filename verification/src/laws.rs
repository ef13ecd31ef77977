//! What the protocol guarantees, stated of every state that satisfies the
//! invariant.

use vstd::prelude::*;
use crate::model::{Phase, Slot, State};
use crate::safety::{lemma_holder_at_head, lemma_one_request, lemma_predecessor};
use crate::progress::lemma_successor;
use crate::tally::{
    count_false, lemma_count_false_bound, lemma_count_false_zero, lemma_injection_bound,
};

verus! {

impl State {
    /// Request `i` of behavior `b` exists.
    pub open spec fn has_request(self, b: int, i: int) -> bool {
        self.has_behavior(b) && 0 <= i < self.behaviors[b].requests.len()
    }

    /// Request `i` of behavior `b` is in the queue of its resource.
    pub open spec fn in_queue(self, b: int, i: int) -> bool {
        self.has_request(b, i) && self.behaviors[b].phase.enqueued(i)
    }

    /// The position of request `i` of behavior `b` in the queue of its
    /// resource: the number of swaps into that queue before its own.
    pub open spec fn position(self, b: int, i: int) -> nat {
        self.behaviors[b].slots[i]
    }

    /// The body of behavior `b` was handed to the executor.
    pub open spec fn admitted(self, b: int) -> bool {
        self.behaviors[b].phase.reserve() == 0 && self.behaviors[b].phase != Phase::Waiting
    }
}

/// Mutual exclusion: two requests whose bodies have access to the same
/// resource at the same time are one request.  In particular no two running
/// bodies share a resource.
pub proof fn law_mutual_exclusion(s: State, a: int, i: int, b: int, j: int)
    requires
        s.inv(),
        s.has_request(a, i),
        s.has_request(b, j),
        s.target(a, i) == s.target(b, j),
        s.behaviors[a].phase.holds(i),
        s.behaviors[b].phase.holds(j),
    ensures
        a == b,
        i == j,
{
    lemma_holder_at_head(s, a, i);
    lemma_holder_at_head(s, b, j);
}

/// First in, first out: of two requests in the queue of one resource, the
/// later one is admitted to its body only after the earlier one gave the
/// resource up, that is after the earlier body returned.
pub proof fn law_fifo(s: State, a: int, i: int, b: int, j: int)
    requires
        s.inv(),
        s.in_queue(a, i),
        s.in_queue(b, j),
        s.target(a, i) == s.target(b, j),
        s.position(a, i) < s.position(b, j),
        s.admitted(b),
    ensures
        s.behaviors[a].phase.released(i),
{
    assert(s.behavior_inv(a));
    assert(s.behavior_inv(b));
    assert(s.request_inv(a, i));
    lemma_count_false_zero(s.grants(b));
    assert(s.grants(b)[j]);
}

/// A queue records the swaps in their order: the swap of a request puts it
/// behind every request that is already there, and moves none of them.
pub proof fn law_swap_order(s: State, b: int, at: nat)
    requires
        s.inv(),
        s.has_behavior(b),
        s.behaviors[b].phase == (Phase::Enqueue { at }),
    ensures
        ({
            let c = s.target(b, at as int);
            let t = s.enqueue(b, at);
            &&& t.cowns[c].queue == s.cowns[c].queue.push(Slot { behavior: b as nat, index: at })
            &&& t.in_queue(b, at as int)
            &&& t.position(b, at as int) == s.cowns[c].queue.len()
            &&& forall|a: int, i: int| #[trigger]
                s.in_queue(a, i) ==> t.in_queue(a, i) && t.position(a, i) == s.position(a, i)
                    && (s.target(a, i) == c ==> t.position(a, i) < t.position(b, at as int))
        }),
{
    let c = s.target(b, at as int);
    let t = s.enqueue(b, at);
    assert(s.behavior_inv(b));
    assert(s.request_inv(b, at as int));
    assert forall|a: int, i: int| #[trigger] s.in_queue(a, i) implies t.in_queue(a, i) && t.position(
        a,
        i,
    ) == s.position(a, i) && (s.target(a, i) == c ==> t.position(a, i) < t.position(b, at as int)) by {
        assert(s.behavior_inv(a));
        assert(s.request_inv(a, i));
    }
}

/// Atomicity: two behaviors stand in the same order in every queue that
/// they share, so their accesses to shared resources are those of one
/// behavior as a whole followed by those of the other.
pub proof fn law_one_order(s: State, a: int, i: int, k: int, b: int, j: int, l: int)
    requires
        s.inv(),
        s.in_queue(a, i),
        s.in_queue(a, k),
        s.in_queue(b, j),
        s.in_queue(b, l),
        s.target(a, i) == s.target(b, j),
        s.target(a, k) == s.target(b, l),
        s.position(a, i) < s.position(b, j),
    ensures
        s.position(a, k) < s.position(b, l),
{
    let c1 = s.target(a, i);
    let c2 = s.target(a, k);
    assert(s.behavior_inv(a));
    assert(s.behavior_inv(b));
    assert(s.request_inv(a, i));
    assert(s.request_inv(a, k));
    assert(s.request_inv(b, j));
    assert(s.request_inv(b, l));
    if i == k {
        lemma_one_request(s, b, j, l);
    } else {
        if j == l {
            lemma_one_request(s, a, i, k);
        }
        let pa = s.position(a, k) as int;
        let pb = s.position(b, l) as int;
        if pb <= pa {
            assert(s.cown_inv(c1));
            assert(s.cown_inv(c2));
            assert(s.order_inv(c1, s.position(a, i) as int, s.position(b, j) as int));
            assert(s.order_inv(c2, pb, pa));
        }
    }
}

/// The order of a queue is the order in which the behaviors completed their
/// first phase: one order for all resources.
pub proof fn law_stamp_order(s: State, a: int, i: int, b: int, j: int)
    requires
        s.inv(),
        s.in_queue(a, i),
        s.in_queue(b, j),
        s.target(a, i) == s.target(b, j),
        s.position(a, i) < s.position(b, j),
        s.behaviors[b].phase.entered(),
    ensures
        s.behaviors[a].phase.entered(),
        s.behaviors[a].stamp < s.behaviors[b].stamp,
{
    let c = s.target(a, i);
    assert(s.behavior_inv(a));
    assert(s.behavior_inv(b));
    assert(s.request_inv(a, i));
    assert(s.request_inv(b, j));
    assert(s.cown_inv(c));
    assert(s.order_inv(c, s.position(a, i) as int, s.position(b, j) as int));
}

/// A body is started at most once, and was started once when the behavior
/// is done.
pub proof fn law_runs_once(s: State, b: int)
    requires
        s.inv(),
        s.has_behavior(b),
    ensures
        s.behaviors[b].runs <= 1,
        s.behaviors[b].runs == 1 <==> s.behaviors[b].phase.started(),
        s.behaviors[b].phase == Phase::Done ==> s.behaviors[b].runs == 1,
{
    assert(s.behavior_inv(b));
}

/// Only the step that starts the body of `b` counts as a run of `b`, and it
/// is taken only when the completion counter of `b` has reached zero.
pub proof fn law_run_is_begin(s: State, a: int, b: int)
    requires
        s.inv(),
        s.has_behavior(b),
    ensures
        s.step(a).has_behavior(b),
        s.step(a).behaviors[b].runs == s.behaviors[b].runs + (if a == b && s.behaviors[b].phase
            == Phase::Spawned {
            1nat
        } else {
            0nat
        }),
        a == b && s.behaviors[b].phase == Phase::Spawned ==> s.behaviors[b].pending == 0,
{
    if s.enabled(a) {
        assert(s.behavior_inv(a));
        match s.behaviors[a].phase {
            Phase::Link { .. } => lemma_predecessor(s, a),
            Phase::Release { at } => {
                lemma_holder_at_head(s, a, at as int);
                let c = s.target(a, at as int);
                assert(s.cown_inv(c));
                let h = s.cowns[c].head as int;
                assert(s.entry_inv(c, h));
                if s.behaviors[a].requests[at as int].next is Some {
                    assert(s.entry_inv(c, h + 1));
                }
            },
            _ => {},
        }
    }
}

/// The completion counter counts what a behavior still waits for: one for
/// each request that is not granted, and the unit reserved at construction
/// until the behavior has enqueued every request.
pub proof fn law_pending_counts(s: State, b: int)
    requires
        s.inv(),
        s.has_behavior(b),
    ensures
        s.behaviors[b].pending == s.behaviors[b].phase.reserve() + count_false(s.grants(b)),
        s.behaviors[b].pending <= s.behaviors[b].requests.len() + 1,
        s.behaviors[b].pending == 0 <==> s.admitted(b),
        s.admitted(b) ==> forall|i: int| s.has_request(b, i) ==> s.granted(b, i),
{
    assert(s.behavior_inv(b));
    lemma_count_false_bound(s.grants(b));
    lemma_count_false_zero(s.grants(b));
    if s.admitted(b) {
        assert forall|i: int| s.has_request(b, i) implies s.granted(b, i) by {
            assert(s.grants(b)[i]);
        }
    }
}

/// A body cannot start while its behavior is still enqueueing: until the
/// reserved unit is used up the counter is not zero, whatever is granted
/// meanwhile, and no release that wakes the behavior takes it to zero.
pub proof fn law_reserved_unit(s: State, a: int, b: int)
    requires
        s.inv(),
        s.has_behavior(b),
        s.submitting(b),
        a != b,
    ensures
        s.behaviors[b].pending >= 1,
        s.step(a).has_behavior(b),
        s.step(a).submitting(b),
        s.step(a).behaviors[b].phase == s.behaviors[b].phase,
        s.spawned_by(a) != Some(b as nat),
{
    assert(s.behavior_inv(b));
    if s.enabled(a) {
        assert(s.behavior_inv(a));
        match s.behaviors[a].phase {
            Phase::Link { .. } => lemma_predecessor(s, a),
            Phase::Release { at } => {
                if s.behaviors[a].requests[at as int].next is Some {
                    lemma_successor(s, a, at);
                }
            },
            _ => {},
        }
    }
}

/// Two phases: a request completes its first phase only when every behavior
/// before it in the queue has enqueued all its requests.
pub proof fn law_two_phases(s: State, a: int, i: int, b: int, j: int)
    requires
        s.inv(),
        s.in_queue(a, i),
        s.in_queue(b, j),
        s.target(a, i) == s.target(b, j),
        s.position(a, i) < s.position(b, j),
        s.behaviors[b].phase.linked(j),
    ensures
        s.behaviors[a].phase.entered(),
{
    let c = s.target(a, i);
    assert(s.behavior_inv(a));
    assert(s.behavior_inv(b));
    assert(s.request_inv(a, i));
    assert(s.request_inv(b, j));
    assert(s.cown_inv(c));
    assert(s.order_inv(c, s.position(a, i) as int, s.position(b, j) as int));
}

/// The body of a behavior is handed to the executor once: by the step that
/// takes its completion counter from one to zero, by no other step, and
/// never again.
pub proof fn law_spawned_once(s: State, a: int, b: int)
    requires
        s.inv(),
        s.has_behavior(b),
    ensures
        s.step(a).has_behavior(b),
        s.spawned_by(a) == Some(b as nat) <==> !s.admitted(b) && s.step(a).admitted(b),
        s.spawned_by(a) == Some(b as nat) ==> s.behaviors[b].pending == 1 && s.step(a).behaviors[b].phase
            == Phase::Spawned,
        s.admitted(b) ==> s.step(a).admitted(b),
{
    if s.enabled(a) {
        assert(s.behavior_inv(a));
        match s.behaviors[a].phase {
            Phase::Link { .. } => lemma_predecessor(s, a),
            Phase::Release { at } => {
                if s.behaviors[a].requests[at as int].next is Some {
                    lemma_successor(s, a, at);
                }
            },
            _ => {},
        }
    }
}

/// A body has all its resources at once: while it waits for the executor
/// or runs, each of its requests stands at the head of its queue, with
/// every earlier request of that queue released.
pub proof fn law_holds_all(s: State, b: int, i: int)
    requires
        s.inv(),
        s.has_request(b, i),
        s.behaviors[b].phase == Phase::Spawned || s.behaviors[b].phase == Phase::Running,
    ensures
        s.behaviors[b].phase.holds(i),
        s.in_queue(b, i),
        s.position(b, i) == s.cowns[s.target(b, i)].head,
        forall|a: int, j: int|
            s.in_queue(a, j) && s.target(a, j) == s.target(b, i) && s.position(a, j) < s.position(b, i)
                ==> s.behaviors[a].phase.released(j),
{
    lemma_holder_at_head(s, b, i);
    assert forall|a: int, j: int|
        s.in_queue(a, j) && s.target(a, j) == s.target(b, i) && s.position(a, j) < s.position(
            b,
            i,
        ) implies s.behaviors[a].phase.released(j) by {
        law_fifo(s, a, j, b, i);
    }
}

/// All or nothing: while the body of a behavior runs, the body of any other
/// behavior that shares a resource with it has either returned, and given
/// that resource up, or has not been started.  So a body finds in its
/// resources what the bodies before it left there as a whole, and nothing
/// of a body that comes after it.
pub proof fn law_all_or_nothing(s: State, a: int, i: int, b: int, j: int)
    requires
        s.inv(),
        s.has_request(a, i),
        s.has_request(b, j),
        a != b,
        s.target(a, i) == s.target(b, j),
        s.behaviors[b].phase == Phase::Running,
    ensures
        s.behaviors[a].phase.released(i) || !s.behaviors[a].phase.started(),
        s.behaviors[a].phase.released(i) <==> s.in_queue(a, i) && s.position(a, i) < s.position(b, j),
        !s.admitted(a) || s.behaviors[a].phase.released(i),
{
    assert(s.behavior_inv(a));
    assert(s.behavior_inv(b));
    assert(s.request_inv(a, i));
    assert(s.request_inv(b, j));
    lemma_holder_at_head(s, b, j);
    if s.in_queue(a, i) && s.position(a, i) < s.position(b, j) {
        law_fifo(s, a, i, b, j);
    }
    if s.admitted(a) && !s.behaviors[a].phase.released(i) {
        lemma_holder_at_head(s, a, i);
    }
}

impl State {
    /// Every behavior that asks for the resource `c` asks for `d` as well.
    pub open spec fn asked_together(self, c: int, d: int) -> bool {
        forall|a: int, i: int|
            self.has_request(a, i) && #[trigger] self.target(a, i) == c ==> exists|k: int|
                self.has_request(a, k) && #[trigger] self.target(a, k) == d
    }

    /// The request of behavior `a` for the resource `c`.
    pub open spec fn request_for(self, a: int, c: int) -> int {
        choose|k: int| self.has_request(a, k) && #[trigger] self.target(a, k) == c
    }

    /// Where the behavior at position `m` of the queue of `c` stands in the
    /// queue of `d`.
    pub open spec fn across(self, c: int, d: int, m: int) -> int {
        let a = self.cowns[c].queue[m].behavior as int;
        self.position(a, self.request_for(a, d)) as int
    }
}

/// If every behavior that asks for `c` asks for `d` as well, a behavior
/// that has enqueued all its requests has on `d` at least as many requests
/// before its own as on `c`.
proof fn lemma_count_at_most(s: State, b: int, j: int, l: int)
    requires
        s.inv(),
        s.has_request(b, j),
        s.has_request(b, l),
        s.behaviors[b].phase.entered(),
        s.asked_together(s.target(b, j), s.target(b, l)),
    ensures
        s.position(b, j) <= s.position(b, l),
{
    let c = s.target(b, j);
    let d = s.target(b, l);
    let n = s.position(b, j) as int;
    let m = s.position(b, l) as int;
    let f = |x: int| s.across(c, d, x);
    assert(s.behavior_inv(b));
    assert(s.request_inv(b, j));
    assert(s.request_inv(b, l));
    assert(s.cown_inv(c));
    assert(s.cown_inv(d));
    assert forall|x: int| 0 <= x < n implies 0 <= #[trigger] f(x) < m by {
        lemma_across(s, b, j, l, x);
    }
    assert forall|x: int, y: int| 0 <= x < n && 0 <= y < n && #[trigger] f(x) == #[trigger] f(
        y,
    ) implies x == y by {
        lemma_across(s, b, j, l, x);
        lemma_across(s, b, j, l, y);
        let a = s.cowns[c].queue[x].behavior as int;
        let a2 = s.cowns[c].queue[y].behavior as int;
        assert(s.entry_inv(c, x));
        assert(s.entry_inv(c, y));
        assert(s.entry_inv(d, f(x)));
        assert(a == a2);
        assert(s.behavior_inv(a));
        lemma_one_request(s, a, s.cowns[c].queue[x].index as int, s.cowns[c].queue[y].index as int);
    }
    lemma_injection_bound(n, m, f);
}

/// The behavior at a position before that of `b` in the queue of the one
/// resource has a request in the queue of the other, before that of `b`.
proof fn lemma_across(s: State, b: int, j: int, l: int, x: int)
    requires
        s.inv(),
        s.has_request(b, j),
        s.has_request(b, l),
        s.behaviors[b].phase.entered(),
        s.asked_together(s.target(b, j), s.target(b, l)),
        0 <= x < s.position(b, j),
    ensures
        ({
            let c = s.target(b, j);
            let d = s.target(b, l);
            let a = s.cowns[c].queue[x].behavior as int;
            let k = s.request_for(a, d);
            &&& s.has_request(a, k)
            &&& s.target(a, k) == d
            &&& s.in_queue(a, k)
            &&& 0 <= s.across(c, d, x) < s.position(b, l)
            &&& s.cowns[d].queue[s.across(c, d, x)] == (Slot { behavior: a as nat, index: k as nat })
        }),
{
    let c = s.target(b, j);
    let d = s.target(b, l);
    assert(s.behavior_inv(b));
    assert(s.request_inv(b, j));
    assert(s.request_inv(b, l));
    assert(s.cown_inv(c));
    assert(s.entry_inv(c, x));
    let e = s.cowns[c].queue[x];
    let a = e.behavior as int;
    let i = e.index as int;
    assert(s.behavior_inv(a));
    assert(s.has_request(a, i) && s.target(a, i) == c);
    let k = s.request_for(a, d);
    assert(s.has_request(a, k) && s.target(a, k) == d);
    assert(s.order_inv(c, x, s.position(b, j) as int));
    assert(s.request_inv(a, k));
    law_one_order(s, a, i, k, b, j, l);
}

/// Two counters.  Let every behavior that asks for one of two resources ask
/// for the other as well.  Then a behavior stands at the same position in
/// both queues: as many bodies come before its own on the one resource as
/// on the other, and they are the bodies of the same behaviors.  If each of
/// them adds one to both, the behavior finds the same number in both.
pub proof fn law_same_count(s: State, b: int, j: int, l: int)
    requires
        s.inv(),
        s.has_request(b, j),
        s.has_request(b, l),
        s.behaviors[b].phase.entered(),
        s.asked_together(s.target(b, j), s.target(b, l)),
        s.asked_together(s.target(b, l), s.target(b, j)),
    ensures
        s.position(b, j) == s.position(b, l),
        forall|a: int, i: int, k: int|
            s.in_queue(a, i) && s.in_queue(a, k) && s.target(a, i) == s.target(b, j) && s.target(a, k)
                == s.target(b, l) ==> (#[trigger] s.position(a, i) < s.position(b, j)
                <==> #[trigger] s.position(a, k) < s.position(b, l)),
{
    lemma_count_at_most(s, b, j, l);
    lemma_count_at_most(s, b, l, j);
    assert forall|a: int, i: int, k: int|
        s.in_queue(a, i) && s.in_queue(a, k) && s.target(a, i) == s.target(b, j) && s.target(a, k)
            == s.target(b, l) implies (#[trigger] s.position(a, i) < s.position(b, j)
        <==> #[trigger] s.position(a, k) < s.position(b, l)) by {
        assert(s.behavior_inv(b));
        assert(s.request_inv(b, j));
        assert(s.request_inv(b, l));
        if s.position(a, i) < s.position(b, j) {
            law_one_order(s, a, i, k, b, j, l);
        }
        if s.position(a, k) < s.position(b, l) {
            law_one_order(s, a, k, i, b, l, j);
        }
    }
}

} // verus!
