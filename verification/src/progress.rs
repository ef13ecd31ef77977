//! Freedom from deadlock: while a behavior is not done, some behavior can
//! take a step, and no run of the protocol goes on for ever.

use vstd::prelude::*;
use crate::model::{BehaviorState, Phase, Slot, State};
use crate::safety::{lemma_holder_at_head, lemma_inv_step, lemma_predecessor};
use crate::tally::lemma_count_false_zero;

verus! {

/// An upper bound on the steps that a behavior has still to take.
pub open spec fn weight_of(bh: BehaviorState) -> nat {
    bh.phase.weight(bh.requests.len())
}

/// The sum of the weights of all behaviors.
pub open spec fn total_weight(bs: Seq<BehaviorState>) -> nat
    decreases bs.len(),
{
    if bs.len() == 0 {
        0
    } else {
        total_weight(bs.drop_last()) + weight_of(bs.last())
    }
}

impl State {
    /// An upper bound on the steps that can still be taken.
    pub open spec fn measure(self) -> nat {
        total_weight(self.behaviors)
    }

    /// The state after the steps of the behaviors that `schedule` names, in
    /// that order.
    pub open spec fn run(self, schedule: Seq<int>) -> State
        decreases schedule.len(),
    {
        if schedule.len() == 0 {
            self
        } else {
            self.run(schedule.drop_last()).step(schedule.last())
        }
    }

    /// Every step of `schedule` is taken by a behavior that can move.
    pub open spec fn runnable(self, schedule: Seq<int>) -> bool
        decreases schedule.len(),
    {
        schedule.len() > 0 ==> {
            &&& self.runnable(schedule.drop_last())
            &&& self.run(schedule.drop_last()).enabled(schedule.last())
        }
    }
}

proof fn lemma_total_weight_le(a: Seq<BehaviorState>, b: Seq<BehaviorState>)
    requires
        a.len() == b.len(),
        forall|i: int| 0 <= i < a.len() ==> weight_of(#[trigger] a[i]) <= weight_of(b[i]),
    ensures
        total_weight(a) <= total_weight(b),
    decreases a.len(),
{
    if a.len() > 0 {
        assert forall|i: int| 0 <= i < a.drop_last().len() implies weight_of(
            #[trigger] a.drop_last()[i],
        ) <= weight_of(b.drop_last()[i]) by {}
        lemma_total_weight_le(a.drop_last(), b.drop_last());
    }
}

proof fn lemma_total_weight_lt(a: Seq<BehaviorState>, b: Seq<BehaviorState>, j: int)
    requires
        a.len() == b.len(),
        forall|i: int| 0 <= i < a.len() ==> weight_of(#[trigger] a[i]) <= weight_of(b[i]),
        0 <= j < a.len(),
        weight_of(a[j]) < weight_of(b[j]),
    ensures
        total_weight(a) < total_weight(b),
    decreases a.len(),
{
    assert forall|i: int| 0 <= i < a.drop_last().len() implies weight_of(
        #[trigger] a.drop_last()[i],
    ) <= weight_of(b.drop_last()[i]) by {}
    if j == a.len() - 1 {
        lemma_total_weight_le(a.drop_last(), b.drop_last());
    } else {
        lemma_total_weight_lt(a.drop_last(), b.drop_last(), j);
    }
}

/// The successor that a release wakes is another behavior with a unit left;
/// if that is its last unit, it is waiting.
pub proof fn lemma_successor(s: State, b: int, at: nat)
    requires
        s.inv(),
        s.has_behavior(b),
        s.behaviors[b].phase == (Phase::Release { at }),
        s.behaviors[b].requests[at as int].next is Some,
    ensures
        ({
            let n = s.behaviors[b].requests[at as int].next->0 as int;
            &&& s.has_behavior(n)
            &&& n != b
            &&& s.behaviors[n].pending >= 1
            &&& (s.behaviors[n].pending == 1 ==> s.behaviors[n].phase == Phase::Waiting)
        }),
{
    let c = s.target(b, at as int);
    let n = s.behaviors[b].requests[at as int].next->0 as int;
    assert(s.behavior_inv(b));
    lemma_holder_at_head(s, b, at as int);
    assert(s.cown_inv(c));
    let h = s.cowns[c].head as int;
    assert(s.entry_inv(c, h));
    assert(s.entry_inv(c, h + 1));
    let j = s.cowns[c].queue[h + 1].index as int;
    assert(s.behavior_inv(n));
    assert(!s.grants(n)[j]);
    lemma_count_false_zero(s.grants(n));
}

/// A step of a behavior uses up some of its own weight.
pub proof fn lemma_own_weight(s: State, b: int)
    requires
        s.inv(),
        s.enabled(b),
    ensures
        s.step(b).has_behavior(b),
        s.step(b).behaviors.len() == s.behaviors.len(),
        weight_of(s.step(b).behaviors[b]) < weight_of(s.behaviors[b]),
{
    assert(s.behavior_inv(b));
    match s.behaviors[b].phase {
        Phase::Link { .. } => lemma_predecessor(s, b),
        Phase::Release { at } => {
            if s.behaviors[b].requests[at as int].next is Some {
                lemma_successor(s, b, at);
            }
        },
        _ => {},
    }
}

/// Every step uses up some of the measure.
pub proof fn lemma_step_decreases(s: State, b: int)
    requires
        s.inv(),
        s.enabled(b),
    ensures
        s.step(b).measure() < s.measure(),
{
    let t = s.step(b);
    assert(s.behavior_inv(b));
    match s.behaviors[b].phase {
        Phase::Link { .. } => lemma_predecessor(s, b),
        Phase::Release { at } => {
            if s.behaviors[b].requests[at as int].next is Some {
                lemma_successor(s, b, at);
            }
        },
        _ => {},
    }
    assert forall|i: int| 0 <= i < t.behaviors.len() implies weight_of(#[trigger] t.behaviors[i])
        <= weight_of(s.behaviors[i]) by {}
    lemma_total_weight_lt(t.behaviors, s.behaviors, b);
}

/// Enqueueing waits only for enqueueing.  A behavior that waits for the
/// flag of its predecessor can move, or the behavior it waits for can, or
/// one further along the chain; and the one that can move is itself still
/// enqueueing: the wait is for a few steps of another thread, never for a
/// body.
pub proof fn law_short_wait(s: State, b: int) -> (w: int)
    requires
        s.inv(),
        s.has_behavior(b),
        s.behaviors[b].phase is Link,
    ensures
        s.enabled(w),
        s.has_behavior(w),
        !s.behaviors[w].phase.entered() || s.behaviors[w].phase is Finish,
    decreases
        s.cowns.len() - s.target(b, s.behaviors[b].phase->Link_at as int),
        s.behaviors[b].slots[s.behaviors[b].phase->Link_at as int],
{
    let behind = s.behaviors[b].phase->Link_behind;
    let p = behind.behavior as int;
    lemma_predecessor(s, b);
    assert(s.behavior_inv(p));
    if s.flag_of(behind) {
        b
    } else {
        match s.behaviors[p].phase {
            Phase::Link { at: at2, behind: behind2 } => {
                assert(s.request_inv(p, at2 as int));
                law_short_wait(s, p)
            },
            _ => p,
        }
    }
}

/// No wakeup is missed.  A request that is to give its resource up can do
/// so, or a successor has swapped itself in behind it and has not yet made
/// itself known: then that successor can take its step, and after it the
/// request knows whom to wake.
pub proof fn law_no_missed_wakeup(s: State, b: int) -> (w: int)
    requires
        s.inv(),
        s.has_behavior(b),
        s.behaviors[b].phase is Release,
    ensures
        s.enabled(w),
        w == b <==> s.can_release(b, s.behaviors[b].phase->Release_at),
        w != b ==> {
            let at = s.behaviors[b].phase->Release_at;
            &&& s.has_behavior(w)
            &&& s.behaviors[w].phase is Link
            &&& s.behaviors[w].phase->Link_behind == (Slot { behavior: b as nat, index: at })
            &&& s.step(w).behaviors[b].requests[at as int].next == Some(w as nat)
            &&& s.step(w).behaviors[b].phase == s.behaviors[b].phase
            &&& s.step(w).can_release(b, at)
        },
{
    let at = s.behaviors[b].phase->Release_at;
    let c = s.target(b, at as int);
    assert(s.behavior_inv(b));
    assert(s.request_inv(b, at as int));
    lemma_holder_at_head(s, b, at as int);
    assert(s.cown_inv(c));
    let h = s.cowns[c].head as int;
    assert(s.entry_inv(c, h));
    if s.can_release(b, at) {
        b
    } else {
        assert(s.entry_inv(c, s.cowns[c].queue.len() - 1));
        assert(s.entry_inv(c, h + 1));
        let e = s.cowns[c].queue[h + 1];
        let n = e.behavior as int;
        assert(s.behavior_inv(n));
        assert(s.request_inv(n, e.index as int));
        n
    }
}

/// A behavior that waits for its resources is not stuck: the behavior at
/// the head of a queue in which it waits can move, or one that this one
/// waits for in turn.
proof fn lemma_waiting_moves(s: State, b: int) -> (w: int)
    requires
        s.inv(),
        s.has_behavior(b),
        s.behaviors[b].phase == Phase::Waiting,
    ensures
        s.enabled(w),
    decreases s.behaviors[b].stamp,
{
    assert(s.behavior_inv(b));
    lemma_count_false_zero(s.grants(b));
    let i = choose|i: int| 0 <= i < s.grants(b).len() && !s.grants(b)[i];
    assert(s.request_inv(b, i));
    let c = s.target(b, i);
    let k = s.behaviors[b].slots[i] as int;
    assert(s.cown_inv(c));
    let h = s.cowns[c].head as int;
    assert(s.entry_inv(c, h));
    assert(s.order_inv(c, h, k));
    let e = s.cowns[c].queue[h];
    let a = e.behavior as int;
    assert(s.behavior_inv(a));
    assert(s.request_inv(a, e.index as int));
    match s.behaviors[a].phase {
        Phase::Waiting => lemma_waiting_moves(s, a),
        Phase::Release { .. } => law_no_missed_wakeup(s, a),
        _ => a,
    }
}

/// Freedom from deadlock: while some behavior is not done, some behavior
/// can take a step.
pub proof fn law_no_deadlock(s: State) -> (w: int)
    requires
        s.inv(),
        !s.all_done(),
    ensures
        s.enabled(w),
{
    let b = choose|b: int| s.has_behavior(b) && (#[trigger] s.behaviors[b]).phase != Phase::Done;
    match s.behaviors[b].phase {
        Phase::Link { .. } => law_short_wait(s, b),
        Phase::Waiting => lemma_waiting_moves(s, b),
        Phase::Release { .. } => law_no_missed_wakeup(s, b),
        _ => b,
    }
}

/// A run preserves the invariant, and no run takes more steps than the
/// measure of the state it starts from.
pub proof fn law_runs_are_bounded(s: State, schedule: Seq<int>)
    requires
        s.inv(),
        s.runnable(schedule),
    ensures
        s.run(schedule).inv(),
        s.run(schedule).measure() + schedule.len() <= s.measure(),
    decreases schedule.len(),
{
    if schedule.len() > 0 {
        law_runs_are_bounded(s, schedule.drop_last());
        let t = s.run(schedule.drop_last());
        lemma_inv_step(t, schedule.last());
        lemma_step_decreases(t, schedule.last());
    }
}

/// Every behavior is run in the end: a run that cannot be continued ends
/// with every behavior done, its body run once.
pub proof fn law_every_behavior_runs(s: State, schedule: Seq<int>)
    requires
        s.inv(),
        s.runnable(schedule),
        forall|w: int| !s.run(schedule).enabled(w),
    ensures
        s.run(schedule).all_done(),
        forall|b: int|
            s.run(schedule).has_behavior(b) ==> (#[trigger] s.run(schedule).behaviors[b]).runs == 1,
{
    law_runs_are_bounded(s, schedule);
    let t = s.run(schedule);
    if !t.all_done() {
        let w = law_no_deadlock(t);
    }
    assert forall|b: int| t.has_behavior(b) implies (#[trigger] t.behaviors[b]).runs == 1 by {
        assert(t.behavior_inv(b));
    }
}

} // verus!
