//! What holds of every state that the protocol can reach.

use vstd::prelude::*;
use crate::model::{Phase, Slot, State};
use crate::tally::{
    count_false, lemma_count_false_all, lemma_count_false_update, lemma_count_false_zero,
};

verus! {

impl State {
    /// For each request of behavior `b`, whether it is granted.
    pub open spec fn grants(self, b: int) -> Seq<bool> {
        Seq::new(self.behaviors[b].requests.len(), |i: int| self.granted(b, i))
    }

    pub open spec fn phase_of(self, slot: Slot) -> Phase {
        self.behaviors[slot.behavior as int].phase
    }

    pub open spec fn linked_at(self, c: int, k: int) -> bool {
        self.phase_of(self.cowns[c].queue[k]).linked(self.cowns[c].queue[k].index as int)
    }

    pub open spec fn entered_at(self, c: int, k: int) -> bool {
        self.phase_of(self.cowns[c].queue[k]).entered()
    }

    pub open spec fn stamp_at(self, c: int, k: int) -> nat {
        self.behaviors[self.cowns[c].queue[k].behavior as int].stamp
    }

    /// The position named by the phase lies among the requests.
    pub open spec fn phase_fits(self, b: int) -> bool {
        let bh = self.behaviors[b];
        let n = bh.requests.len();
        match bh.phase {
            Phase::Enqueue { at } => at < n,
            Phase::Link { at, .. } => at < n,
            Phase::Finish { at } => at < n,
            Phase::Release { at } => at < n,
            _ => true,
        }
    }

    /// Request `i` of behavior `b` agrees with the phase of `b` and with the
    /// queue of its resource.
    pub open spec fn request_inv(self, b: int, i: int) -> bool {
        let bh = self.behaviors[b];
        let r = bh.requests[i];
        let c = r.target as int;
        let k = bh.slots[i] as int;
        &&& self.has_cown(c)
        &&& r.scheduled == bh.phase.flagged(i)
        &&& if bh.phase.enqueued(i) {
            &&& k < self.cowns[c].queue.len()
            &&& self.cowns[c].queue[k] == (Slot { behavior: b as nat, index: i as nat })
            &&& (bh.phase.released(i) <==> k < self.cowns[c].head)
        } else {
            r.next is None
        }
    }

    /// A behavior that waits to make itself known stands right behind an
    /// unreleased request, which is the one it waits for.
    pub open spec fn link_inv(self, b: int) -> bool {
        let bh = self.behaviors[b];
        match bh.phase {
            Phase::Link { at, behind } => {
                let c = bh.requests[at as int].target as int;
                let k = bh.slots[at as int] as int;
                &&& k >= 1
                &&& k - 1 >= self.cowns[c].head
                &&& self.cowns[c].queue[k - 1] == behind
            },
            _ => true,
        }
    }

    pub open spec fn behavior_inv(self, b: int) -> bool {
        let bh = self.behaviors[b];
        let n = bh.requests.len();
        &&& bh.slots.len() == n
        &&& self.phase_fits(b)
        &&& forall|i: int| 0 <= i < n ==> #[trigger] self.request_inv(b, i)
        &&& forall|i: int, j: int|
            0 <= i < j < n ==> (#[trigger] bh.requests[i]).target < (#[trigger] bh.requests[j]).target
        &&& bh.runs == if bh.phase.started() {
            1nat
        } else {
            0nat
        }
        &&& bh.pending == bh.phase.reserve() + count_false(self.grants(b))
        &&& (bh.phase == Phase::Waiting ==> bh.pending > 0)
        &&& (bh.phase.reserve() == 0 && bh.phase != Phase::Waiting ==> bh.pending == 0)
        &&& self.link_inv(b)
        &&& (bh.phase.entered() && n > 0 ==> bh.stamp < self.clock)
    }

    /// The entry at position `k` of the queue of resource `c` names a request
    /// for `c` that knows its position; while it is unreleased, it names its
    /// successor as soon as that one has made itself known.
    pub open spec fn entry_inv(self, c: int, k: int) -> bool {
        let cw = self.cowns[c];
        let e = cw.queue[k];
        let bh = self.behaviors[e.behavior as int];
        &&& self.has_behavior(e.behavior as int)
        &&& e.index < bh.requests.len()
        &&& bh.requests[e.index as int].target == c
        &&& bh.phase.enqueued(e.index as int)
        &&& bh.slots[e.index as int] == k
        &&& (k >= cw.head ==> bh.requests[e.index as int].next == if k + 1 < cw.queue.len()
            && self.linked_at(c, k + 1) {
            Some(cw.queue[k + 1].behavior)
        } else {
            None
        })
    }

    /// A request completes its first phase only after every behavior before
    /// it in the queue has enqueued all its requests.
    pub open spec fn order_inv(self, c: int, k: int, l: int) -> bool {
        self.linked_at(c, l) ==> {
            &&& self.entered_at(c, k)
            &&& (self.entered_at(c, l) ==> self.stamp_at(c, k) < self.stamp_at(c, l))
        }
    }

    pub open spec fn cown_inv(self, c: int) -> bool {
        let cw = self.cowns[c];
        &&& cw.head <= cw.queue.len()
        &&& cw.tail == if cw.head == cw.queue.len() {
            None
        } else {
            Some(cw.queue.last())
        }
        &&& forall|k: int| 0 <= k < cw.queue.len() ==> #[trigger] self.entry_inv(c, k)
        &&& forall|k: int, l: int| 0 <= k < l < cw.queue.len() ==> #[trigger] self.order_inv(c, k, l)
    }

    /// The invariant of the protocol.
    pub open spec fn inv(self) -> bool {
        &&& forall|b: int| self.has_behavior(b) ==> #[trigger] self.behavior_inv(b)
        &&& forall|c: int| self.has_cown(c) ==> #[trigger] self.cown_inv(c)
    }
}

/// The empty state satisfies the invariant.
pub proof fn lemma_inv_empty()
    ensures
        State::empty().inv(),
{
}

/// A step of behavior `b` that leaves the queues alone, and leaves alone
/// what the queues see of `b`, preserves the invariant if it preserves what
/// the invariant says of `b` itself.
proof fn lemma_inv_own_step(s: State, t: State, b: int)
    requires
        s.inv(),
        s.has_behavior(b),
        t.cowns == s.cowns,
        t.clock == s.clock,
        t.behaviors.len() == s.behaviors.len(),
        forall|a: int| s.has_behavior(a) && a != b ==> #[trigger] t.behaviors[a] == s.behaviors[a],
        t.behaviors[b].slots == s.behaviors[b].slots,
        t.behaviors[b].stamp == s.behaviors[b].stamp,
        t.behaviors[b].requests.len() == s.behaviors[b].requests.len(),
        forall|i: int|
            0 <= i < s.behaviors[b].requests.len() ==> {
                &&& (#[trigger] t.behaviors[b].requests[i]).target == s.behaviors[b].requests[i].target
                &&& t.behaviors[b].requests[i].next == s.behaviors[b].requests[i].next
            },
        s.behaviors[b].phase.entered(),
        t.behaviors[b].phase.entered(),
        t.behavior_inv(b),
    ensures
        t.inv(),
{
    assert forall|a: int| t.has_behavior(a) implies #[trigger] t.behavior_inv(a) by {
        if a != b {
            assert(s.behavior_inv(a));
            assert(t.grants(a) =~= s.grants(a));
            assert forall|i: int| 0 <= i < t.behaviors[a].requests.len() implies #[trigger] t.request_inv(
                a,
                i,
            ) by {
                assert(s.request_inv(a, i));
            }
        }
    }
    assert forall|c: int| t.has_cown(c) implies #[trigger] t.cown_inv(c) by {
        assert(s.cown_inv(c));
        assert forall|k: int| 0 <= k < t.cowns[c].queue.len() implies #[trigger] t.entry_inv(c, k) by {
            assert(s.entry_inv(c, k));
            if k + 1 < t.cowns[c].queue.len() {
                assert(s.entry_inv(c, k + 1));
            }
        }
        assert forall|k: int, l: int| 0 <= k < l < t.cowns[c].queue.len() implies #[trigger] t.order_inv(
            c,
            k,
            l,
        ) by {
            assert(s.order_inv(c, k, l));
            assert(s.entry_inv(c, k));
            assert(s.entry_inv(c, l));
        }
    }
}

/// Setting a flag preserves the invariant.
pub proof fn lemma_inv_finish(s: State, b: int, at: nat)
    requires
        s.inv(),
        s.has_behavior(b),
        s.behaviors[b].phase == (Phase::Finish { at }),
    ensures
        s.finish(b, at).inv(),
{
    let t = s.finish(b, at);
    assert(s.behavior_inv(b));
    assert(t.grants(b) =~= s.grants(b));
    assert forall|i: int| 0 <= i < t.behaviors[b].requests.len() implies #[trigger] t.request_inv(b, i) by {
        assert(s.request_inv(b, i));
    }
    lemma_inv_own_step(s, t, b);
}

/// Using up the reserved unit preserves the invariant.
pub proof fn lemma_inv_resolve(s: State, b: int)
    requires
        s.inv(),
        s.has_behavior(b),
        s.behaviors[b].phase == Phase::Resolve,
    ensures
        s.resolve(b).inv(),
{
    let t = s.resolve(b);
    assert(s.behavior_inv(b));
    assert(t.grants(b) =~= s.grants(b));
    assert forall|i: int| 0 <= i < t.behaviors[b].requests.len() implies #[trigger] t.request_inv(b, i) by {
        assert(s.request_inv(b, i));
    }
    lemma_inv_own_step(s, t, b);
}

/// Starting a body preserves the invariant.
pub proof fn lemma_inv_begin(s: State, b: int)
    requires
        s.inv(),
        s.has_behavior(b),
        s.behaviors[b].phase == Phase::Spawned,
    ensures
        s.begin(b).inv(),
{
    let t = s.begin(b);
    assert(s.behavior_inv(b));
    assert(t.grants(b) =~= s.grants(b));
    assert forall|i: int| 0 <= i < t.behaviors[b].requests.len() implies #[trigger] t.request_inv(b, i) by {
        assert(s.request_inv(b, i));
    }
    lemma_inv_own_step(s, t, b);
}

/// The return of a body preserves the invariant.
pub proof fn lemma_inv_end(s: State, b: int)
    requires
        s.inv(),
        s.has_behavior(b),
        s.behaviors[b].phase == Phase::Running,
    ensures
        s.end(b).inv(),
{
    let t = s.end(b);
    assert(s.behavior_inv(b));
    assert(t.grants(b) =~= s.grants(b));
    assert forall|i: int| 0 <= i < t.behaviors[b].requests.len() implies #[trigger] t.request_inv(b, i) by {
        assert(s.request_inv(b, i));
    }
    lemma_inv_own_step(s, t, b);
}

/// A new resource preserves the invariant.
pub proof fn lemma_inv_add_cown(s: State)
    requires
        s.inv(),
    ensures
        s.add_cown().inv(),
{
    let t = s.add_cown();
    assert forall|b2: int| t.has_behavior(b2) implies #[trigger] t.behavior_inv(b2) by {
        assert(s.behavior_inv(b2));
        let bh = s.behaviors[b2];
        assert forall|i: int| 0 <= i < bh.requests.len() implies #[trigger] t.request_inv(b2, i) by {
            assert(s.request_inv(b2, i));
        }
        assert forall|i: int| 0 <= i < bh.requests.len() implies #[trigger] t.granted(b2, i)
            == s.granted(b2, i) by {
            assert(s.request_inv(b2, i));
        }
        assert(t.grants(b2) =~= s.grants(b2));
        match bh.phase {
            Phase::Link { at, behind } => {
                assert(s.request_inv(b2, at as int));
            },
            _ => {},
        }
    }
    assert forall|c: int| t.has_cown(c) implies #[trigger] t.cown_inv(c) by {
        if c < s.cowns.len() {
            assert(s.cown_inv(c));
            assert forall|k: int| 0 <= k < t.cowns[c].queue.len() implies #[trigger] t.entry_inv(c, k) by {
                assert(s.entry_inv(c, k));
            }
            assert forall|k: int, l: int| 0 <= k < l < t.cowns[c].queue.len() implies #[trigger] t.order_inv(c, k, l) by {
                assert(s.order_inv(c, k, l));
            }
        }
    }
}

/// The targets of a new behavior: known resources, in strictly rising order.
pub open spec fn admissible(s: State, targets: Seq<nat>) -> bool {
    &&& forall|i: int| 0 <= i < targets.len() ==> s.has_cown(#[trigger] targets[i] as int)
    &&& forall|i: int, j: int| 0 <= i < j < targets.len() ==> targets[i] < targets[j]
}

/// A new behavior preserves the invariant.
pub proof fn lemma_inv_add_behavior(s: State, targets: Seq<nat>)
    requires
        s.inv(),
        admissible(s, targets),
    ensures
        s.add_behavior(targets).inv(),
{
    let t = s.add_behavior(targets);
    let b = s.behaviors.len() as int;
    assert forall|b2: int| t.has_behavior(b2) implies #[trigger] t.behavior_inv(b2) by {
        if b2 < b {
            assert(s.behavior_inv(b2));
            assert(t.grants(b2) =~= s.grants(b2));
            assert forall|i: int| 0 <= i < t.behaviors[b2].requests.len() implies #[trigger] t.request_inv(b2, i) by {
                assert(s.request_inv(b2, i));
            }
        } else {
            let bh = t.behaviors[b];
            assert forall|i: int| 0 <= i < bh.requests.len() implies #[trigger] t.request_inv(b, i) by {}
            assert forall|i: int| 0 <= i < t.grants(b).len() implies !t.grants(b)[i] by {}
            lemma_count_false_all(t.grants(b));
        }
    }
    assert forall|c: int| t.has_cown(c) implies #[trigger] t.cown_inv(c) by {
        assert(s.cown_inv(c));
        assert forall|k: int| 0 <= k < t.cowns[c].queue.len() implies #[trigger] t.entry_inv(c, k) by {
            assert(s.entry_inv(c, k));
            if k + 1 < t.cowns[c].queue.len() {
                assert(s.entry_inv(c, k + 1));
            }
        }
        assert forall|k: int, l: int| 0 <= k < l < t.cowns[c].queue.len() implies #[trigger] t.order_inv(c, k, l) by {
            assert(s.order_inv(c, k, l));
            assert(s.entry_inv(c, k));
            assert(s.entry_inv(c, l));
        }
    }
}

/// A behavior has at most one request for a resource.
pub proof fn lemma_one_request(s: State, b: int, i: int, j: int)
    requires
        s.has_behavior(b),
        s.behavior_inv(b),
        0 <= i < s.behaviors[b].requests.len(),
        0 <= j < s.behaviors[b].requests.len(),
        s.behaviors[b].requests[i].target == s.behaviors[b].requests[j].target,
    ensures
        i == j,
{
}

/// The swap of the first phase preserves the invariant.
pub proof fn lemma_inv_enqueue(s: State, b: int, at: nat)
    requires
        s.inv(),
        s.has_behavior(b),
        s.behaviors[b].phase == (Phase::Enqueue { at }),
    ensures
        s.enqueue(b, at).inv(),
{
    let t = s.enqueue(b, at);
    let bh = s.behaviors[b];
    let c = bh.requests[at as int].target as int;
    let cw = s.cowns[c];
    let pos = cw.queue.len() as int;
    let me = Slot { behavior: b as nat, index: at };
    assert(s.behavior_inv(b));
    assert(s.request_inv(b, at as int));
    assert(s.cown_inv(c));
    // No entry of any queue stands for the request that is enqueued now.
    assert forall|c2: int, k: int| s.has_cown(c2) && 0 <= k < s.cowns[c2].queue.len() implies #[trigger] s.cowns[c2].queue[k] != me by {
        assert(s.cown_inv(c2));
        assert(s.entry_inv(c2, k));
    }
    assert forall|b2: int| t.has_behavior(b2) implies #[trigger] t.behavior_inv(b2) by {
        assert(s.behavior_inv(b2));
        let bh2 = s.behaviors[b2];
        if b2 != b {
            assert forall|i: int| 0 <= i < bh2.requests.len() implies #[trigger] t.request_inv(b2, i) by {
                assert(s.request_inv(b2, i));
            }
            assert forall|i: int| 0 <= i < bh2.requests.len() implies #[trigger] t.granted(b2, i)
                == s.granted(b2, i) by {
                assert(s.request_inv(b2, i));
            }
            assert(t.grants(b2) =~= s.grants(b2));
            match bh2.phase {
                Phase::Link { at: at2, behind } => {
                    assert(s.request_inv(b2, at2 as int));
                },
                _ => {},
            }
        } else {
            assert forall|i: int| 0 <= i < bh.requests.len() implies #[trigger] t.request_inv(b, i) by {
                assert(s.request_inv(b, i));
                if i != at {
                    if bh.requests[i].target == bh.requests[at as int].target {
                        lemma_one_request(s, b, i, at as int);
                    }
                }
            }
            assert forall|i: int| 0 <= i < bh.requests.len() && i != at implies #[trigger] t.granted(b, i)
                == s.granted(b, i) by {
                if bh.requests[i].target == bh.requests[at as int].target {
                    lemma_one_request(s, b, i, at as int);
                }
            }
            if cw.tail is None {
                assert(t.grants(b) =~= s.grants(b).update(at as int, true));
                lemma_count_false_update(s.grants(b), at as int, true);
            } else {
                assert(t.grants(b) =~= s.grants(b));
            }
        }
    }
    assert forall|c2: int| t.has_cown(c2) implies #[trigger] t.cown_inv(c2) by {
        assert(s.cown_inv(c2));
        let n2 = t.cowns[c2].queue.len();
        assert forall|k: int| 0 <= k < n2 implies #[trigger] t.entry_inv(c2, k) by {
            if !(c2 == c && k == pos) {
                assert(s.entry_inv(c2, k));
                if k + 1 < s.cowns[c2].queue.len() {
                    assert(s.entry_inv(c2, k + 1));
                }
            }
        }
        assert forall|k: int, l: int| 0 <= k < l < n2 implies #[trigger] t.order_inv(c2, k, l) by {
            assert(s.entry_inv(c2, k));
            assert(s.behavior_inv(s.cowns[c2].queue[k].behavior as int));
            assert(s.request_inv(s.cowns[c2].queue[k].behavior as int, s.cowns[c2].queue[k].index as int));
            if !(c2 == c && l == pos) {
                assert(s.order_inv(c2, k, l));
                assert(s.entry_inv(c2, l));
            }
        }
    }
}

/// What a behavior waits behind in its first phase: a request of another
/// behavior for the same resource, which stands right before its own in the
/// queue, is not released and does not yet know its successor.
pub proof fn lemma_predecessor(s: State, b: int)
    requires
        s.inv(),
        s.has_behavior(b),
        s.behaviors[b].phase is Link,
    ensures
        ({
            let at = s.behaviors[b].phase->Link_at as int;
            let behind = s.behaviors[b].phase->Link_behind;
            let p = behind.behavior as int;
            let j = behind.index as int;
            let c = s.target(b, at);
            &&& 0 <= at < s.behaviors[b].requests.len()
            &&& s.has_cown(c)
            &&& s.has_behavior(p)
            &&& p != b
            &&& 0 <= j < s.behaviors[p].requests.len()
            &&& s.target(p, j) == c
            &&& s.behaviors[p].phase.enqueued(j)
            &&& !s.behaviors[p].phase.released(j)
            &&& s.behaviors[p].requests[j].scheduled == s.behaviors[p].phase.flagged(j)
            &&& s.behaviors[p].requests[j].next is None
            &&& s.behaviors[p].slots[j] + 1 == s.behaviors[b].slots[at]
            &&& s.cowns[c].queue[s.behaviors[p].slots[j] as int] == behind
        }),
{
    let at = s.behaviors[b].phase->Link_at as int;
    let behind = s.behaviors[b].phase->Link_behind;
    let c = s.target(b, at);
    let k = s.behaviors[b].slots[at] as int;
    assert(s.behavior_inv(b));
    assert(s.request_inv(b, at));
    assert(s.cown_inv(c));
    assert(s.entry_inv(c, k - 1));
    assert(s.entry_inv(c, k));
    assert(s.behavior_inv(behind.behavior as int));
    assert(s.request_inv(behind.behavior as int, behind.index as int));
}

/// Making oneself known to the predecessor preserves the invariant.
pub proof fn lemma_inv_link(s: State, b: int, at: nat, behind: Slot)
    requires
        s.inv(),
        s.has_behavior(b),
        s.behaviors[b].phase == (Phase::Link { at, behind }),
        s.flag_of(behind),
    ensures
        s.link(b, at, behind).inv(),
{
    let t = s.link(b, at, behind);
    let bh = s.behaviors[b];
    let c = bh.requests[at as int].target as int;
    let k = bh.slots[at as int] as int;
    let p = behind.behavior as int;
    let j = behind.index as int;
    assert(s.behavior_inv(b));
    assert(s.request_inv(b, at as int));
    assert(s.cown_inv(c));
    assert(s.entry_inv(c, k - 1));
    assert(s.behavior_inv(p));
    assert(s.request_inv(p, j));
    assert forall|b2: int| t.has_behavior(b2) implies #[trigger] t.behavior_inv(b2) by {
        assert(s.behavior_inv(b2));
        let bh2 = s.behaviors[b2];
        assert forall|i: int| 0 <= i < bh2.requests.len() implies #[trigger] t.request_inv(b2, i) by {
            assert(s.request_inv(b2, i));
        }
        assert forall|i: int| 0 <= i < bh2.requests.len() implies #[trigger] t.granted(b2, i)
            == s.granted(b2, i) by {}
        assert(t.grants(b2) =~= s.grants(b2));
    }
    assert forall|c2: int| t.has_cown(c2) implies #[trigger] t.cown_inv(c2) by {
        assert(s.cown_inv(c2));
        let n2 = t.cowns[c2].queue.len();
        assert forall|l: int| 0 <= l < n2 implies #[trigger] t.entry_inv(c2, l) by {
            assert(s.entry_inv(c2, l));
            if l + 1 < n2 {
                assert(s.entry_inv(c2, l + 1));
            }
        }
        assert forall|l: int, m: int| 0 <= l < m < n2 implies #[trigger] t.order_inv(c2, l, m) by {
            assert(s.order_inv(c2, l, m));
            assert(s.entry_inv(c2, l));
            assert(s.entry_inv(c2, m));
            let el = s.cowns[c2].queue[l];
            let em = s.cowns[c2].queue[m];
            assert(s.behavior_inv(el.behavior as int));
            if em.behavior == b && em.index == at {
                if l < k - 1 {
                    assert(s.order_inv(c, l, k - 1));
                }
            }
        }
    }
}

/// While its body has access, a request stands at the head of its queue.
pub proof fn lemma_holder_at_head(s: State, b: int, i: int)
    requires
        s.inv(),
        s.has_behavior(b),
        0 <= i < s.behaviors[b].requests.len(),
        s.behaviors[b].phase.holds(i),
    ensures
        s.behaviors[b].slots[i] == s.cowns[s.target(b, i)].head,
        s.has_cown(s.target(b, i)),
        s.target(b, i) < s.cowns.len(),
        s.cowns[s.target(b, i)].head < s.cowns[s.target(b, i)].queue.len(),
        s.cowns[s.target(b, i)].queue[s.cowns[s.target(b, i)].head as int] == (Slot {
            behavior: b as nat,
            index: i as nat,
        }),
{
    assert(s.behavior_inv(b));
    assert(s.request_inv(b, i));
    lemma_count_false_zero(s.grants(b));
    assert(s.grants(b)[i]);
}

/// Giving a resource up preserves the invariant.
pub proof fn lemma_inv_release(s: State, b: int, at: nat)
    requires
        s.inv(),
        s.has_behavior(b),
        s.behaviors[b].phase == (Phase::Release { at }),
        s.can_release(b, at),
    ensures
        s.release(b, at).inv(),
{
    let t = s.release(b, at);
    let bh = s.behaviors[b];
    let r = bh.requests[at as int];
    let c = r.target as int;
    let cw = s.cowns[c];
    let k = cw.head as int;
    assert(s.behavior_inv(b));
    lemma_holder_at_head(s, b, at as int);
    assert(s.cown_inv(c));
    assert(s.entry_inv(c, k));
    if r.next is None {
        assert(s.entry_inv(c, cw.queue.len() - 1));
    } else {
        assert(s.entry_inv(c, k + 1));
    }
    let succ: int = if r.next is Some { r.next->0 as int } else { -1 };
    if r.next is Some {
        let j = cw.queue[k + 1].index as int;
        assert(s.behavior_inv(succ));
        assert(!s.grants(succ)[j]);
        lemma_count_false_zero(s.grants(succ));
        assert(t.behaviors[succ].phase == s.behaviors[succ].phase || (s.behaviors[succ].phase
            == Phase::Waiting && t.behaviors[succ].phase == Phase::Spawned));
    }
    assert(forall|b2: int|
        s.has_behavior(b2) && b2 != b && b2 != succ ==> #[trigger] t.behaviors[b2] == s.behaviors[b2]);
    assert forall|b2: int| t.has_behavior(b2) implies #[trigger] t.behavior_inv(b2) by {
        assert(s.behavior_inv(b2));
        let bh2 = s.behaviors[b2];
        if b2 == succ {
            let e1 = cw.queue[k + 1];
            let j = e1.index as int;
            assert forall|i: int| 0 <= i < bh2.requests.len() && i != j implies #[trigger] t.granted(b2, i)
                == s.granted(b2, i) by {
                assert(s.request_inv(b2, i));
                if bh2.requests[i].target == c {
                    lemma_one_request(s, b2, i, j);
                }
            }
            assert(t.grants(b2) =~= s.grants(b2).update(j, true));
            lemma_count_false_update(s.grants(b2), j, true);
        } else {
            assert forall|i: int| 0 <= i < bh2.requests.len() implies #[trigger] t.granted(b2, i)
                == s.granted(b2, i) by {
                assert(s.request_inv(b2, i));
            }
            assert(t.grants(b2) =~= s.grants(b2));
        }
        assert forall|i: int| 0 <= i < bh2.requests.len() implies #[trigger] t.request_inv(b2, i) by {
            assert(s.request_inv(b2, i));
            if bh2.requests[i].target == c {
                if b2 == b {
                    lemma_one_request(s, b, i, at as int);
                }
            }
        }
        match bh2.phase {
            Phase::Link { at: at2, behind } => {
                assert(s.request_inv(b2, at2 as int));
            },
            _ => {},
        }
    }
    assert forall|c2: int| t.has_cown(c2) implies #[trigger] t.cown_inv(c2) by {
        assert(s.cown_inv(c2));
        let n2 = t.cowns[c2].queue.len();
        assert forall|l: int| 0 <= l < n2 implies #[trigger] t.entry_inv(c2, l) by {
            assert(s.entry_inv(c2, l));
            if l + 1 < n2 {
                assert(s.entry_inv(c2, l + 1));
            }
        }
        assert forall|l: int, m: int| 0 <= l < m < n2 implies #[trigger] t.order_inv(c2, l, m) by {
            assert(s.order_inv(c2, l, m));
            assert(s.entry_inv(c2, l));
            assert(s.entry_inv(c2, m));
        }
    }
}

/// Every step preserves the invariant.
pub proof fn lemma_inv_step(s: State, b: int)
    requires
        s.inv(),
    ensures
        s.step(b).inv(),
{
    if s.enabled(b) {
        match s.behaviors[b].phase {
            Phase::Enqueue { at } => lemma_inv_enqueue(s, b, at),
            Phase::Link { at, behind } => lemma_inv_link(s, b, at, behind),
            Phase::Finish { at } => lemma_inv_finish(s, b, at),
            Phase::Resolve => lemma_inv_resolve(s, b),
            Phase::Waiting => {},
            Phase::Spawned => lemma_inv_begin(s, b),
            Phase::Running => lemma_inv_end(s, b),
            Phase::Release { at } => lemma_inv_release(s, b, at),
            Phase::Done => {},
        }
    }
}

} // verus!
