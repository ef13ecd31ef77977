//! The scheduling protocol as a transition system.
//!
//! A [`State`] records every resource's wait queue and every behavior's
//! progress through the protocol.  A behavior advances by steps, and the
//! steps of different behaviors may be taken in any order: that models
//! threads that submit and run behaviors at the same time.  A step is one
//! write to what the threads share (a swap of a tail, a store to a
//! successor field or to a flag, a decrement of a counter, a clearing of a
//! tail) together with the reads that decide it; a behavior whose reads tell
//! it to wait has no step until another behavior has moved.
//!
//! `State::step` is the step function and `State::enabled` tells which
//! behaviors can move.  A body that runs is expected to return: a running
//! behavior can always take the step that ends its body.
//!
//! Besides what the threads share, a state records what they do not see and
//! what the laws of the protocol speak of: the order in which requests were
//! swapped into each queue, how many of them were released, how often each
//! body was started, and when each behavior finished its first phase.

use vstd::prelude::*;

verus! {

/// One request of one behavior: the unit of a resource's wait queue.
pub struct Slot {
    pub behavior: nat,
    pub index: nat,
}

/// What a request holds: its resource, the behavior to wake when the resource
/// is given up, and whether its owner has finished enqueueing.
pub struct RequestState {
    pub target: nat,
    pub next: Option<nat>,
    pub scheduled: bool,
}

/// Where a behavior stands in the protocol.
pub enum Phase {
    /// About to swap request `at` into the tail of its resource.
    Enqueue { at: nat },
    /// Request `at` was swapped in behind `behind`; waiting for the flag of
    /// `behind` before recording itself as its successor.
    Link { at: nat, behind: Slot },
    /// About to set the flag of request `at`.
    Finish { at: nat },
    /// About to give up the completion unit reserved at construction.
    Resolve,
    /// Fully enqueued; some request is not yet at the head of its queue.
    Waiting,
    /// Every request is granted; the body was handed to the executor.
    Spawned,
    /// The body is executing.
    Running,
    /// The body returned; about to release request `at`.
    Release { at: nat },
    /// Every request is released.
    Done,
}

pub struct BehaviorState {
    pub requests: Seq<RequestState>,
    /// The completion counter.
    pub pending: nat,
    pub phase: Phase,
    /// For each enqueued request, its position in the queue of its resource.
    pub slots: Seq<nat>,
    /// How often the body was started.
    pub runs: nat,
    /// The moment at which the last request was enqueued.
    pub stamp: nat,
}

pub struct CownState {
    /// The most recently enqueued request that is not yet released.
    pub tail: Option<Slot>,
    /// Every request ever enqueued, in the order of the swaps.
    pub queue: Seq<Slot>,
    /// How many of them are released.
    pub head: nat,
}

pub struct State {
    pub cowns: Seq<CownState>,
    pub behaviors: Seq<BehaviorState>,
    /// Counts the behaviors that completed their first phase.
    pub clock: nat,
}

impl Phase {
    /// Request `i` was swapped into its queue.
    pub open spec fn enqueued(self, i: int) -> bool {
        match self {
            Phase::Enqueue { at } => i < at,
            Phase::Link { at, .. } => i <= at,
            _ => true,
        }
    }

    /// Request `i` completed the first phase: it was granted at once or made
    /// itself known to its predecessor.
    pub open spec fn linked(self, i: int) -> bool {
        match self {
            Phase::Enqueue { at } => i < at,
            Phase::Link { at, .. } => i < at,
            _ => true,
        }
    }

    /// Every request completed the first phase.
    pub open spec fn entered(self) -> bool {
        match self {
            Phase::Enqueue { .. } => false,
            Phase::Link { .. } => false,
            _ => true,
        }
    }

    /// The flag of request `i` is set.
    pub open spec fn flagged(self, i: int) -> bool {
        match self {
            Phase::Enqueue { .. } => false,
            Phase::Link { .. } => false,
            Phase::Finish { at } => i < at,
            _ => true,
        }
    }

    /// Request `i` gave its resource up.
    pub open spec fn released(self, i: int) -> bool {
        match self {
            Phase::Release { at } => i < at,
            Phase::Done => true,
            _ => false,
        }
    }

    /// The body has exclusive access to the resource of request `i`.
    pub open spec fn holds(self, i: int) -> bool {
        match self {
            Phase::Spawned => true,
            Phase::Running => true,
            Phase::Release { at } => at <= i,
            _ => false,
        }
    }

    /// The completion unit reserved at construction, while it is still there.
    pub open spec fn reserve(self) -> nat {
        match self {
            Phase::Enqueue { .. } => 1,
            Phase::Link { .. } => 1,
            Phase::Finish { .. } => 1,
            Phase::Resolve => 1,
            _ => 0,
        }
    }

    /// The body has been started.
    pub open spec fn started(self) -> bool {
        match self {
            Phase::Running => true,
            Phase::Release { .. } => true,
            Phase::Done => true,
            _ => false,
        }
    }

    /// An upper bound on the steps that a behavior over `n` resources has
    /// still to take.
    pub open spec fn weight(self, n: nat) -> nat {
        match self {
            Phase::Enqueue { at } => (2 * (n - at) + 2 * n + 4) as nat,
            Phase::Link { at, .. } => (2 * (n - at) + 2 * n + 3) as nat,
            Phase::Finish { at } => ((n - at) + n + 4) as nat,
            Phase::Resolve => n + 4,
            Phase::Waiting => n + 3,
            Phase::Spawned => n + 2,
            Phase::Running => n + 1,
            Phase::Release { at } => (n - at) as nat,
            Phase::Done => 0,
        }
    }
}

/// The phase in which a behavior over `n` resources is created.
pub open spec fn first_phase(n: nat) -> Phase {
    if n == 0 {
        Phase::Resolve
    } else {
        Phase::Enqueue { at: 0 }
    }
}

/// A request as it is created: no successor, flag not set.
pub open spec fn fresh_request(target: nat) -> RequestState {
    RequestState { target, next: None, scheduled: false }
}

/// A behavior as it is created from the resources it asks for.
pub open spec fn fresh_behavior(targets: Seq<nat>) -> BehaviorState {
    BehaviorState {
        requests: Seq::new(targets.len(), |i: int| fresh_request(targets[i])),
        pending: targets.len() + 1,
        phase: first_phase(targets.len()),
        slots: Seq::new(targets.len(), |i: int| 0nat),
        runs: 0,
        stamp: 0,
    }
}

/// A resource as it is created: nothing was ever enqueued.
pub open spec fn fresh_cown() -> CownState {
    CownState { tail: None, queue: Seq::empty(), head: 0 }
}

impl State {
    pub open spec fn empty() -> State {
        State { cowns: Seq::empty(), behaviors: Seq::empty(), clock: 0 }
    }

    pub open spec fn has_behavior(self, b: int) -> bool {
        0 <= b < self.behaviors.len()
    }

    pub open spec fn has_cown(self, c: int) -> bool {
        0 <= c < self.cowns.len()
    }

    /// The resource of request `i` of behavior `b`.
    pub open spec fn target(self, b: int, i: int) -> int {
        self.behaviors[b].requests[i].target as int
    }

    /// Request `i` of behavior `b` is enqueued and nothing unreleased stands
    /// before it in its queue.
    pub open spec fn granted(self, b: int, i: int) -> bool {
        &&& self.behaviors[b].phase.enqueued(i)
        &&& self.behaviors[b].slots[i] <= self.cowns[self.target(b, i)].head
    }

    /// The new resource gets the next free number.
    pub open spec fn add_cown(self) -> State {
        State { cowns: self.cowns.push(fresh_cown()), ..self }
    }

    /// The new behavior gets the next free number.
    pub open spec fn add_behavior(self, targets: Seq<nat>) -> State {
        State { behaviors: self.behaviors.push(fresh_behavior(targets)), ..self }
    }

    pub open spec fn with_behavior(self, b: int, v: BehaviorState) -> State {
        State { behaviors: self.behaviors.update(b, v), ..self }
    }

    pub open spec fn with_cown(self, c: int, v: CownState) -> State {
        State { cowns: self.cowns.update(c, v), ..self }
    }

    /// Behavior `b` completed the first phase for request `at`.
    pub open spec fn advance_start(self, b: int, at: nat) -> State {
        let bh = self.behaviors[b];
        if at + 1 < bh.requests.len() {
            self.with_behavior(b, BehaviorState { phase: Phase::Enqueue { at: at + 1 }, ..bh })
        } else {
            State {
                clock: self.clock + 1,
                ..self.with_behavior(
                    b,
                    BehaviorState { phase: Phase::Finish { at: 0 }, stamp: self.clock, ..bh },
                )
            }
        }
    }

    /// One completion unit of behavior `b` is used up.  The body is handed to
    /// the executor by the decrement that takes the counter from one to zero.
    pub open spec fn resolve_one(self, b: int) -> State {
        let bh = self.behaviors[b];
        let pending = (bh.pending - 1) as nat;
        let phase = if pending == 0 {
            Phase::Spawned
        } else {
            bh.phase
        };
        self.with_behavior(b, BehaviorState { pending, phase, ..bh })
    }

    /// The end of the second phase: the unit reserved at construction is used
    /// up.  Unless that was the last unit, the behavior waits for the
    /// requests that are not yet granted.
    pub open spec fn resolve(self, b: int) -> State {
        let s = self.resolve_one(b);
        let bh = s.behaviors[b];
        if bh.phase == Phase::Spawned {
            s
        } else {
            s.with_behavior(b, BehaviorState { phase: Phase::Waiting, ..bh })
        }
    }

    /// The swap of the first phase: request `at` becomes the tail of its
    /// resource.  With no predecessor the request is granted at once.
    pub open spec fn enqueue(self, b: int, at: nat) -> State {
        let bh = self.behaviors[b];
        let c = bh.requests[at as int].target as int;
        let cw = self.cowns[c];
        let me = Slot { behavior: b as nat, index: at };
        let placed = BehaviorState { slots: bh.slots.update(at as int, cw.queue.len()), ..bh };
        let swapped = self.with_cown(
            c,
            CownState { tail: Some(me), queue: cw.queue.push(me), head: cw.head },
        );
        match cw.tail {
            None => swapped.with_behavior(b, placed).resolve_one(b).advance_start(b, at),
            Some(behind) => swapped.with_behavior(
                b,
                BehaviorState { phase: Phase::Link { at, behind }, ..placed },
            ),
        }
    }

    /// The flag of request `slot` is set.
    pub open spec fn flag_of(self, slot: Slot) -> bool {
        self.behaviors[slot.behavior as int].requests[slot.index as int].scheduled
    }

    /// The end of the first phase behind a predecessor: the predecessor
    /// learns whom to wake.
    pub open spec fn link(self, b: int, at: nat, behind: Slot) -> State {
        let p = self.behaviors[behind.behavior as int];
        let r = p.requests[behind.index as int];
        self.with_behavior(
            behind.behavior as int,
            BehaviorState {
                requests: p.requests.update(
                    behind.index as int,
                    RequestState { next: Some(b as nat), ..r },
                ),
                ..p
            },
        ).advance_start(b, at)
    }

    /// The second phase for request `at`: its flag is set.
    pub open spec fn finish(self, b: int, at: nat) -> State {
        let bh = self.behaviors[b];
        let r = bh.requests[at as int];
        self.with_behavior(
            b,
            BehaviorState {
                requests: bh.requests.update(at as int, RequestState { scheduled: true, ..r }),
                phase: if at + 1 < bh.requests.len() {
                    Phase::Finish { at: at + 1 }
                } else {
                    Phase::Resolve
                },
                ..bh
            },
        )
    }

    /// The executor starts the body.
    pub open spec fn begin(self, b: int) -> State {
        let bh = self.behaviors[b];
        self.with_behavior(b, BehaviorState { phase: Phase::Running, runs: bh.runs + 1, ..bh })
    }

    /// The body returns.
    pub open spec fn end(self, b: int) -> State {
        let bh = self.behaviors[b];
        self.with_behavior(
            b,
            BehaviorState {
                phase: if bh.requests.len() == 0 {
                    Phase::Done
                } else {
                    Phase::Release { at: 0 }
                },
                ..bh
            },
        )
    }

    /// Request `at` of behavior `b` can give its resource up: its successor
    /// is known, or it is still the tail of the queue.
    pub open spec fn can_release(self, b: int, at: nat) -> bool {
        let bh = self.behaviors[b];
        let r = bh.requests[at as int];
        r.next is Some || self.cowns[r.target as int].tail == Some(
            Slot { behavior: b as nat, index: at },
        )
    }

    /// Request `at` gives its resource up: to its successor, which uses up a
    /// completion unit, or, with none, by emptying the queue.
    pub open spec fn release(self, b: int, at: nat) -> State {
        let bh = self.behaviors[b];
        let r = bh.requests[at as int];
        let c = r.target as int;
        let cw = self.cowns[c];
        let left = self.with_behavior(
            b,
            BehaviorState {
                phase: if at + 1 < bh.requests.len() {
                    Phase::Release { at: at + 1 }
                } else {
                    Phase::Done
                },
                ..bh
            },
        );
        match r.next {
            Some(successor) => left.with_cown(
                c,
                CownState { head: cw.head + 1, ..cw },
            ).resolve_one(successor as int),
            None => left.with_cown(c, CownState { tail: None, head: cw.head + 1, ..cw }),
        }
    }

    /// Behavior `b` can take a step.
    pub open spec fn enabled(self, b: int) -> bool {
        &&& self.has_behavior(b)
        &&& match self.behaviors[b].phase {
            Phase::Enqueue { .. } => true,
            Phase::Link { behind, .. } => self.flag_of(behind),
            Phase::Finish { .. } => true,
            Phase::Resolve => true,
            Phase::Waiting => false,
            Phase::Spawned => true,
            Phase::Running => true,
            Phase::Release { at } => self.can_release(b, at),
            Phase::Done => false,
        }
    }

    /// The state after the next step of behavior `b`; the state itself where
    /// `b` cannot move.
    pub open spec fn step(self, b: int) -> State {
        if !self.enabled(b) {
            self
        } else {
            match self.behaviors[b].phase {
                Phase::Enqueue { at } => self.enqueue(b, at),
                Phase::Link { at, behind } => self.link(b, at, behind),
                Phase::Finish { at } => self.finish(b, at),
                Phase::Resolve => self.resolve(b),
                Phase::Waiting => self,
                Phase::Spawned => self.begin(b),
                Phase::Running => self.end(b),
                Phase::Release { at } => self.release(b, at),
                Phase::Done => self,
            }
        }
    }

    /// The behavior whose completion counter the step of `b` takes from one
    /// to zero, and whose body is therefore handed to the executor.
    pub open spec fn spawned_by(self, b: int) -> Option<nat> {
        if !self.enabled(b) {
            None
        } else {
            match self.behaviors[b].phase {
                Phase::Resolve => if self.behaviors[b].pending == 1 {
                    Some(b as nat)
                } else {
                    None
                },
                Phase::Release { at } => match self.behaviors[b].requests[at as int].next {
                    Some(n) => if self.behaviors[n as int].pending == 1 {
                        Some(n)
                    } else {
                        None
                    },
                    None => None,
                },
                _ => None,
            }
        }
    }

    /// Every behavior has released all its resources.
    pub open spec fn all_done(self) -> bool {
        forall|b: int| self.has_behavior(b) ==> (#[trigger] self.behaviors[b]).phase == Phase::Done
    }
}

} // verus!
