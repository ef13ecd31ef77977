//! Taking a behavior through a whole part of the protocol: all of its
//! enqueueing, or all of its releases.

use vstd::prelude::*;
use crate::model::{Phase, State};
use crate::progress::{lemma_own_weight, lemma_successor, weight_of};
use crate::safety::{lemma_holder_at_head, lemma_inv_step, lemma_predecessor};

verus! {

impl State {
    /// Behavior `b` has not yet used up the unit reserved at construction:
    /// it is still enqueueing.
    pub open spec fn submitting(self, b: int) -> bool {
        self.has_behavior(b) && self.behaviors[b].phase.reserve() == 1
    }

    /// The body of behavior `b` returned and not all its requests are
    /// released.
    pub open spec fn releasing(self, b: int) -> bool {
        self.has_behavior(b) && self.behaviors[b].phase is Release
    }

    /// The state after behavior `b` has taken the steps of its two phases of
    /// enqueueing, one after the other, as far as it can move.
    pub open spec fn scheduled(self, b: int) -> State
        decreases weight_of(self.behaviors[b]),
        when self.inv() && self.has_behavior(b)
    {
        if self.submitting(b) && self.enabled(b) {
            proof {
                lemma_own_weight(self, b);
            }
            self.step(b).scheduled(b)
        } else {
            self
        }
    }

    /// The state after behavior `b` has released its requests, one after the
    /// other, as far as it can move.
    pub open spec fn completed(self, b: int) -> State
        decreases weight_of(self.behaviors[b]),
        when self.inv() && self.has_behavior(b)
    {
        if self.releasing(b) && self.enabled(b) {
            proof {
                lemma_own_weight(self, b);
            }
            self.step(b).completed(b)
        } else {
            self
        }
    }

    /// The behaviors whose bodies those releases hand to the executor, in the
    /// order of the releases.
    pub open spec fn woken(self, b: int) -> Seq<nat>
        decreases weight_of(self.behaviors[b]),
        when self.inv() && self.has_behavior(b)
    {
        if self.releasing(b) && self.enabled(b) {
            proof {
                lemma_own_weight(self, b);
            }
            match self.spawned_by(b) {
                Some(n) => seq![n] + self.step(b).woken(b),
                None => self.step(b).woken(b),
            }
        } else {
            Seq::empty()
        }
    }

    /// Behavior `b` is between two parts of the protocol: it waits for its
    /// resources, waits for the executor, runs, or is done.
    pub open spec fn at_rest(self, b: int) -> bool {
        match self.behaviors[b].phase {
            Phase::Waiting => true,
            Phase::Spawned => true,
            Phase::Running => true,
            Phase::Done => true,
            _ => false,
        }
    }

    /// Every behavior but `b` is at rest.
    pub open spec fn settled_but(self, b: int) -> bool {
        forall|a: int| self.has_behavior(a) && a != b ==> #[trigger] self.at_rest(a)
    }

    /// Every behavior is at rest.
    pub open spec fn settled(self) -> bool {
        forall|a: int| self.has_behavior(a) ==> #[trigger] self.at_rest(a)
    }

    /// Behavior `a` waits for its resources or for the executor: its body is
    /// still to be run.
    pub open spec fn parked(self, a: int) -> bool {
        self.behaviors[a].phase == Phase::Waiting || self.behaviors[a].phase == Phase::Spawned
    }
}

/// While every other behavior is at rest, a behavior that enqueues is never
/// kept waiting: it gets through both phases, and no other behavior changes
/// its phase.
pub proof fn lemma_scheduled_at_rest(s: State, b: int)
    requires
        s.inv(),
        s.has_behavior(b),
        s.submitting(b),
        s.settled_but(b),
    ensures
        s.scheduled(b).inv(),
        s.scheduled(b).settled(),
        s.scheduled(b).behaviors.len() == s.behaviors.len(),
        s.scheduled(b).parked(b),
        forall|a: int|
            s.has_behavior(a) && a != b ==> (#[trigger] s.scheduled(b).behaviors[a]).phase
                == s.behaviors[a].phase,
    decreases weight_of(s.behaviors[b]),
{
    assert(s.behavior_inv(b));
    match s.behaviors[b].phase {
        Phase::Link { behind, .. } => {
            lemma_predecessor(s, b);
            assert(s.at_rest(behind.behavior as int));
        },
        _ => {},
    }
    let t = s.step(b);
    lemma_inv_step(s, b);
    lemma_own_weight(s, b);
    assert forall|a: int| t.has_behavior(a) && a != b implies #[trigger] t.at_rest(a) by {
        assert(s.at_rest(a));
    }
    if t.submitting(b) {
        lemma_scheduled_at_rest(t, b);
        assert forall|a: int| s.has_behavior(a) && a != b implies (#[trigger] s.scheduled(
            b,
        ).behaviors[a]).phase == s.behaviors[a].phase by {}
    } else {
        assert forall|a: int| t.has_behavior(a) implies #[trigger] t.at_rest(a) by {}
    }
}

/// While every other behavior is at rest, a behavior whose body returned is
/// never kept waiting: it releases every request.  Of the other behaviors,
/// those that it wakes go from waiting for their resources to waiting for
/// the executor, and no other changes its phase.
pub proof fn lemma_completed_at_rest(s: State, b: int)
    requires
        s.inv(),
        s.has_behavior(b),
        s.releasing(b) || s.behaviors[b].phase == Phase::Done,
        s.settled_but(b),
    ensures
        s.completed(b).inv(),
        s.completed(b).settled(),
        s.completed(b).behaviors.len() == s.behaviors.len(),
        s.completed(b).behaviors[b].phase == Phase::Done,
        forall|a: int|
            s.has_behavior(a) && a != b ==> (#[trigger] s.completed(b).parked(a) <==> s.parked(a)),
        forall|i: int|
            0 <= i < s.woken(b).len() ==> s.has_behavior(#[trigger] s.woken(b)[i] as int) && s.woken(
                b,
            )[i] != b,
    decreases weight_of(s.behaviors[b]),
{
    assert(s.behavior_inv(b));
    if s.releasing(b) {
        let at = s.behaviors[b].phase->Release_at;
        let c = s.target(b, at as int);
        lemma_holder_at_head(s, b, at as int);
        assert(s.cown_inv(c));
        let h = s.cowns[c].head as int;
        assert(s.entry_inv(c, h));
        if !s.can_release(b, at) {
            assert(s.entry_inv(c, h + 1));
            let e = s.cowns[c].queue[h + 1];
            let n = e.behavior as int;
            assert(s.at_rest(n));
        }
        if s.behaviors[b].requests[at as int].next is Some {
            lemma_successor(s, b, at);
        }
        let t = s.step(b);
        lemma_inv_step(s, b);
        lemma_own_weight(s, b);
        assert forall|a: int| t.has_behavior(a) && a != b implies #[trigger] t.at_rest(a) by {
            assert(s.at_rest(a));
        }
        lemma_completed_at_rest(t, b);
        assert forall|a: int| s.has_behavior(a) && a != b implies (#[trigger] s.completed(b).parked(a)
            <==> s.parked(a)) by {}
        assert forall|i: int| 0 <= i < s.woken(b).len() implies s.has_behavior(
            #[trigger] s.woken(b)[i] as int,
        ) && s.woken(b)[i] != b by {
            match s.spawned_by(b) {
                Some(n) => {
                    if i > 0 {
                        assert(s.woken(b)[i] == t.woken(b)[i - 1]);
                    }
                },
                None => {},
            }
        }
    } else {
        assert forall|a: int| s.has_behavior(a) implies #[trigger] s.at_rest(a) by {}
    }
}

/// The behaviors woken are exactly those that the releases hand to the
/// executor: while every other behavior is at rest, `woken(b)` names each
/// behavior that the releases of `b` take from waiting for its resources to
/// waiting for the executor, names it once, and names no other; and no
/// other behavior changes its phase.
pub proof fn lemma_woken_are_the_spawned(s: State, b: int)
    requires
        s.inv(),
        s.has_behavior(b),
        s.releasing(b) || s.behaviors[b].phase == Phase::Done,
        s.settled_but(b),
    ensures
        s.woken(b).no_duplicates(),
        forall|i: int|
            0 <= i < s.woken(b).len() ==> {
                &&& s.has_behavior(#[trigger] s.woken(b)[i] as int)
                &&& s.woken(b)[i] != b
                &&& s.behaviors[s.woken(b)[i] as int].phase == Phase::Waiting
            },
        forall|a: int|
            s.has_behavior(a) && a != b ==> (#[trigger] s.completed(b).behaviors[a]).phase == if s.woken(
                b,
            ).contains(a as nat) {
                Phase::Spawned
            } else {
                s.behaviors[a].phase
            },
    decreases weight_of(s.behaviors[b]),
{
    assert(s.behavior_inv(b));
    if s.releasing(b) {
        let at = s.behaviors[b].phase->Release_at;
        let c = s.target(b, at as int);
        lemma_holder_at_head(s, b, at as int);
        assert(s.cown_inv(c));
        let h = s.cowns[c].head as int;
        assert(s.entry_inv(c, h));
        if !s.can_release(b, at) {
            assert(s.entry_inv(c, h + 1));
            assert(s.at_rest(s.cowns[c].queue[h + 1].behavior as int));
        }
        if s.behaviors[b].requests[at as int].next is Some {
            lemma_successor(s, b, at);
        }
        let t = s.step(b);
        lemma_inv_step(s, b);
        lemma_own_weight(s, b);
        assert forall|a: int| t.has_behavior(a) && a != b implies #[trigger] t.at_rest(a) by {
            assert(s.at_rest(a));
        }
        lemma_woken_are_the_spawned(t, b);
        let w = s.woken(b);
        let v = t.woken(b);
        match s.spawned_by(b) {
            Some(n) => {
                assert(w =~= seq![n] + v);
                assert(s.behaviors[n as int].phase == Phase::Waiting);
                assert(t.behaviors[n as int].phase == Phase::Spawned);
                assert forall|i: int| 0 <= i < v.len() implies v[i] != n by {
                    assert(t.behaviors[v[i] as int].phase == Phase::Waiting);
                }
                assert forall|i: int, j: int| 0 <= i < w.len() && 0 <= j < w.len() && i != j implies w[i]
                    != w[j] by {
                    if i > 0 && j > 0 {
                        assert(v[i - 1] != v[j - 1]);
                    }
                }
                assert forall|i: int| 0 <= i < w.len() implies {
                    &&& s.has_behavior(#[trigger] w[i] as int)
                    &&& w[i] != b
                    &&& s.behaviors[w[i] as int].phase == Phase::Waiting
                } by {
                    if i > 0 {
                        assert(w[i] == v[i - 1]);
                        assert(t.behaviors[v[i - 1] as int].phase == Phase::Waiting);
                    }
                }
                assert forall|a: int| s.has_behavior(a) && a != b implies (#[trigger] s.completed(
                    b,
                ).behaviors[a]).phase == if w.contains(a as nat) {
                    Phase::Spawned
                } else {
                    s.behaviors[a].phase
                } by {
                    assert(t.completed(b).behaviors[a].phase == if v.contains(a as nat) {
                        Phase::Spawned
                    } else {
                        t.behaviors[a].phase
                    });
                    if v.contains(a as nat) {
                        let i = choose|i: int| 0 <= i < v.len() && v[i] == a as nat;
                        assert(w[i + 1] == a as nat);
                    } else if a == n {
                        assert(w[0] == a as nat);
                    } else if w.contains(a as nat) {
                        let i = choose|i: int| 0 <= i < w.len() && w[i] == a as nat;
                        assert(i > 0);
                        assert(v[i - 1] == a as nat);
                    }
                }
            },
            None => {
                assert(w =~= v);
                assert forall|i: int| 0 <= i < w.len() implies {
                    &&& s.has_behavior(#[trigger] w[i] as int)
                    &&& w[i] != b
                    &&& s.behaviors[w[i] as int].phase == Phase::Waiting
                } by {
                    assert(t.behaviors[v[i] as int].phase == Phase::Waiting);
                }
                assert forall|a: int| s.has_behavior(a) && a != b implies (#[trigger] s.completed(
                    b,
                ).behaviors[a]).phase == if w.contains(a as nat) {
                    Phase::Spawned
                } else {
                    s.behaviors[a].phase
                } by {
                    assert(t.completed(b).behaviors[a].phase == if v.contains(a as nat) {
                        Phase::Spawned
                    } else {
                        t.behaviors[a].phase
                    });
                }
            },
        }
    } else {
        assert(s.woken(b) =~= Seq::<nat>::empty());
    }
}

/// A run that begins with a step of `b` is that step followed by the rest.
proof fn lemma_run_after_step(s: State, b: int, rest: Seq<int>)
    requires
        s.enabled(b),
        s.step(b).runnable(rest),
    ensures
        s.runnable(seq![b] + rest),
        s.run(seq![b] + rest) == s.step(b).run(rest),
    decreases rest.len(),
{
    let whole = seq![b] + rest;
    if rest.len() == 0 {
        assert(whole.drop_last() =~= Seq::<int>::empty());
        assert(s.runnable(whole.drop_last()));
        assert(s.run(whole.drop_last()) == s);
    } else {
        assert(whole.drop_last() =~= seq![b] + rest.drop_last());
        lemma_run_after_step(s, b, rest.drop_last());
    }
}

/// The steps of `scheduled` are steps of the protocol: the state it gives
/// is the end of a run in which only `b` moves.
pub proof fn lemma_scheduled_is_a_run(s: State, b: int) -> (schedule: Seq<int>)
    requires
        s.inv(),
        s.has_behavior(b),
    ensures
        s.runnable(schedule),
        s.run(schedule) == s.scheduled(b),
        forall|i: int| 0 <= i < schedule.len() ==> schedule[i] == b,
    decreases weight_of(s.behaviors[b]),
{
    if s.submitting(b) && s.enabled(b) {
        lemma_inv_step(s, b);
        lemma_own_weight(s, b);
        let rest = lemma_scheduled_is_a_run(s.step(b), b);
        lemma_run_after_step(s, b, rest);
        seq![b] + rest
    } else {
        Seq::empty()
    }
}

/// The steps of `completed` are steps of the protocol: the state it gives
/// is the end of a run in which only `b` moves.
pub proof fn lemma_completed_is_a_run(s: State, b: int) -> (schedule: Seq<int>)
    requires
        s.inv(),
        s.has_behavior(b),
    ensures
        s.runnable(schedule),
        s.run(schedule) == s.completed(b),
        forall|i: int| 0 <= i < schedule.len() ==> schedule[i] == b,
    decreases weight_of(s.behaviors[b]),
{
    if s.releasing(b) && s.enabled(b) {
        lemma_inv_step(s, b);
        lemma_own_weight(s, b);
        let rest = lemma_completed_is_a_run(s.step(b), b);
        lemma_run_after_step(s, b, rest);
        seq![b] + rest
    } else {
        Seq::empty()
    }
}

} // verus!
