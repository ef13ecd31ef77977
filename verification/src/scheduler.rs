//! The scheduler: the state of the protocol as data, and its steps as
//! operations on that data.

use vstd::prelude::*;
use crate::model::{fresh_behavior, fresh_request, BehaviorState, Phase, Slot, State};
use crate::progress::{lemma_own_weight, lemma_successor, weight_of};
use crate::request::{
    in_order, lemma_in_order, lemma_in_order_contains, lemma_in_order_duplicates,
    lemma_rising_duplicates, sort_requests, strictly_rising, targets_of, Request,
};
use crate::safety::{
    lemma_holder_at_head, lemma_inv_add_behavior, lemma_inv_add_cown, lemma_inv_begin,
    lemma_inv_empty, lemma_inv_end, lemma_inv_enqueue, lemma_inv_finish, lemma_inv_link,
    lemma_inv_release, lemma_inv_resolve, lemma_inv_step, lemma_predecessor,
};
use crate::tally::lemma_count_false_zero;

verus! {

/// Why a group of requests is not accepted as a behavior.
#[derive(Clone, Copy, Debug, PartialEq, Eq, Structural)]
pub enum SubmitError {
    /// Two requests of the group ask for one resource.
    DuplicateResource,
    /// A request asks for a resource that was never created.
    UnknownResource,
    /// A handle of the group was made by another runtime.
    ForeignResource,
}

/// Where a behavior stands in the protocol.
#[derive(Clone, Copy, Debug, PartialEq, Eq, Structural)]
pub enum Stage {
    /// About to swap request `at` into the tail of its resource.
    Enqueue { at: usize },
    /// Request `at` was swapped in behind request `index` of `behavior`;
    /// waiting for the flag of that request.
    Link { at: usize, behavior: usize, index: usize },
    /// About to set the flag of request `at`.
    Finish { at: usize },
    /// About to use up the completion unit reserved at construction.
    Resolve,
    /// Fully enqueued; waiting for the requests that are not yet granted.
    Waiting,
    /// Every request is granted; the body was handed to the executor.
    Spawned,
    /// The body is executing.
    Running,
    /// The body returned; about to release request `at`.
    Release { at: usize },
    /// Every request is released.
    Done,
}

impl View for Stage {
    type V = Phase;

    open spec fn view(&self) -> Phase {
        match *self {
            Stage::Enqueue { at } => Phase::Enqueue { at: at as nat },
            Stage::Link { at, behavior, index } => Phase::Link {
                at: at as nat,
                behind: Slot { behavior: behavior as nat, index: index as nat },
            },
            Stage::Finish { at } => Phase::Finish { at: at as nat },
            Stage::Resolve => Phase::Resolve,
            Stage::Waiting => Phase::Waiting,
            Stage::Spawned => Phase::Spawned,
            Stage::Running => Phase::Running,
            Stage::Release { at } => Phase::Release { at: at as nat },
            Stage::Done => Phase::Done,
        }
    }
}

/// What a step asks of the one who drives the scheduler.
#[derive(Clone, Copy, Debug, PartialEq, Eq, Structural)]
pub enum Action {
    /// The behavior cannot move now; nothing changed.
    Blocked,
    /// The behavior took a step.
    Advanced,
    /// The behavior took a step, and the body of the behavior named here is
    /// to be handed to the executor.
    Spawn(usize),
}

impl State {
    /// What the step of `b` asks of the driver.
    pub open spec fn action(self, b: int) -> Action {
        if !self.enabled(b) {
            Action::Blocked
        } else {
            match self.spawned_by(b) {
                Some(n) => Action::Spawn(n as usize),
                None => Action::Advanced,
            }
        }
    }

    /// Why the scheduler does not accept a behavior over `targets`, if it
    /// does not.
    pub open spec fn rejection(self, targets: Seq<nat>) -> Option<SubmitError> {
        if !targets.no_duplicates() {
            Some(SubmitError::DuplicateResource)
        } else if exists|i: int| 0 <= i < targets.len() && !self.has_cown(#[trigger] targets[i] as int) {
            Some(SubmitError::UnknownResource)
        } else {
            None
        }
    }
}

/// A behavior: the requests it needs, its completion counter, and how far
/// it has come.
#[derive(Debug)]
pub struct Behavior {
    count: u128,
    requests: Vec<Request>,
    stage: Stage,
}

impl Behavior {
    /// The completion counter.
    pub closed spec fn pending(&self) -> nat {
        self.count as nat
    }

    /// The requests, in the order in which they are presented.
    pub closed spec fn requests(&self) -> Seq<Request> {
        self.requests@
    }

    /// How far the behavior has come.
    pub closed spec fn phase(&self) -> Phase {
        self.stage@
    }

    /// The behavior holds what `state` says.
    pub open spec fn agrees(&self, state: BehaviorState) -> bool {
        &&& self.pending() == state.pending
        &&& self.phase() == state.phase
        &&& self.requests().len() == state.requests.len()
        &&& forall|i: int| 0 <= i < self.requests().len() ==> (#[trigger] self.requests()[i])@ == state.requests[i]
    }

    /// Builds a behavior from the requests it needs: sorts them by resource
    /// and sets the completion counter to their number plus one (the counter
    /// is wide enough for that, whatever their number).  A group with two
    /// requests for one resource is refused.
    pub fn new(requests: Vec<Request>) -> (r: Result<Behavior, SubmitError>)
        ensures
            match r {
                Ok(behavior) => {
                    &&& targets_of(requests@).no_duplicates()
                    &&& behavior.agrees(fresh_behavior(in_order(targets_of(requests@))))
                },
                Err(e) => {
                    &&& e == SubmitError::DuplicateResource
                    &&& !targets_of(requests@).no_duplicates()
                },
            },
    {
        let n = requests.len();
        let mut sorted = sort_requests(requests);
        let ghost targets = targets_of(requests@);
        let ghost rising = in_order(targets);
        proof {
            lemma_in_order(targets);
            lemma_in_order_duplicates(targets);
            lemma_rising_duplicates(rising);
        }
        let mut i: usize = 0;
        while i < n
            invariant
                i <= n,
                n == sorted@.len(),
                targets_of(sorted@) == rising,
                forall|k: int| 0 <= k < i - 1 ==> #[trigger] rising[k] != rising[k + 1],
                forall|k: int| 0 <= k < i ==> (#[trigger] sorted@[k])@ == fresh_request(rising[k]),
                targets == targets_of(requests@),
                requests@.len() == n,
                rising == in_order(targets),
                rising.len() == n,
                rising.no_duplicates() <==> targets.no_duplicates(),
                rising.no_duplicates() <==> strictly_rising(rising),
                strictly_rising(rising) <==> (forall|i: int|
                    0 <= i < rising.len() - 1 ==> #[trigger] rising[i] != rising[i + 1]),
            decreases n - i,
        {
            if i > 0 && sorted[i - 1].target == sorted[i].target {
                return Err(SubmitError::DuplicateResource);
            }
            let target = sorted[i].target;
            sorted[i] = Request::new(target);
            i += 1;
        }
        let stage = if n == 0 {
            Stage::Resolve
        } else {
            Stage::Enqueue { at: 0 }
        };
        Ok(Behavior { count: n as u128 + 1, requests: sorted, stage })
    }

    /// The completion counter.
    pub fn count(&self) -> (count: u128)
        ensures
            count == self.pending(),
    {
        self.count
    }

    /// The resources that the requests ask for, in the order in which the
    /// behavior presents them.
    pub fn targets(&self) -> (targets: Vec<usize>)
        ensures
            targets@.len() == self.requests().len(),
            forall|i: int| 0 <= i < targets@.len() ==> targets@[i] == (#[trigger] self.requests()[i]).target,
    {
        let mut targets: Vec<usize> = Vec::new();
        let mut i: usize = 0;
        while i < self.requests.len()
            invariant
                i <= self.requests@.len(),
                targets@.len() == i,
                forall|k: int| 0 <= k < i ==> targets@[k] == self.requests@[k].target,
            decreases self.requests.len() - i,
        {
            targets.push(self.requests[i].target);
            i += 1;
        }
        targets
    }

    /// Uses up one completion unit.  Returns whether this took the counter
    /// from one to zero: then the body is to be handed to the executor.
    fn resolve_one(&mut self) -> (spawn: bool)
        requires
            old(self).count >= 1,
        ensures
            final(self).count == old(self).count - 1,
            final(self).requests == old(self).requests,
            spawn == (old(self).count == 1),
            final(self).stage == if spawn {
                Stage::Spawned
            } else {
                old(self).stage
            },
    {
        self.count -= 1;
        if self.count == 0 {
            self.stage = Stage::Spawned;
            true
        } else {
            false
        }
    }
}

/// A resource, as the scheduler sees it: the tail of its wait queue.
#[derive(Debug)]
struct Cown {
    last: Option<(usize, usize)>,
}

impl Cown {
    spec fn tail(&self) -> Option<Slot> {
        match self.last {
            Some((b, i)) => Some(Slot { behavior: b as nat, index: i as nat }),
            None => None,
        }
    }
}

/// The scheduler: every resource's queue and every behavior's progress.
/// Resources and behaviors are known by their numbers, given out in order;
/// a number is never given out again, and what it stands for is kept.
pub struct Scheduler {
    cowns: Vec<Cown>,
    behaviors: Vec<Behavior>,
    state: Ghost<State>,
}

impl View for Scheduler {
    type V = State;

    closed spec fn view(&self) -> State {
        self.state@
    }
}

impl Scheduler {
    /// The data hold what the view says.
    pub closed spec fn represented(&self) -> bool {
        let s = self.state@;
        &&& self.cowns@.len() == s.cowns.len()
        &&& self.behaviors@.len() == s.behaviors.len()
        &&& forall|c: int| 0 <= c < self.cowns@.len() ==> (#[trigger] self.cowns@[c]).tail() == s.cowns[c].tail
        &&& forall|b: int| 0 <= b < self.behaviors@.len() ==> (#[trigger] self.behaviors@[b]).agrees(s.behaviors[b])
    }

    /// The scheduler is in a state that the protocol can reach.
    pub open spec fn wf(&self) -> bool {
        self@.inv() && self.represented()
    }

    /// A scheduler without resources or behaviors.
    pub fn new() -> (s: Scheduler)
        ensures
            s.wf(),
            s@ == State::empty(),
    {
        proof {
            lemma_inv_empty();
        }
        Scheduler { cowns: Vec::new(), behaviors: Vec::new(), state: Ghost(State::empty()) }
    }

    /// The number of resources.
    pub fn cowns(&self) -> (n: usize)
        requires
            self.wf(),
        ensures
            n == self@.cowns.len(),
    {
        self.cowns.len()
    }

    /// The number of behaviors.
    pub fn behaviors(&self) -> (n: usize)
        requires
            self.wf(),
        ensures
            n == self@.behaviors.len(),
    {
        self.behaviors.len()
    }

    /// Creates a resource with an empty queue and returns its number.
    pub fn add_cown(&mut self) -> (c: usize)
        requires
            old(self).wf(),
        ensures
            final(self).wf(),
            final(self)@ == old(self)@.add_cown(),
            c == old(self)@.cowns.len(),
    {
        let c = self.cowns.len();
        self.cowns.push(Cown { last: None });
        proof {
            lemma_inv_add_cown(self.state@);
        }
        self.state = Ghost(self.state@.add_cown());
        c
    }

    /// Registers a behavior over the resources that `requests` ask for, and
    /// returns its number.  The behavior has not begun to enqueue.  A group
    /// is refused that asks twice for one resource, or for a resource that
    /// does not exist.
    pub fn submit(&mut self, requests: Vec<Request>) -> (r: Result<usize, SubmitError>)
        requires
            old(self).wf(),
        ensures
            final(self).wf(),
            match r {
                Ok(b) => {
                    &&& old(self)@.rejection(targets_of(requests@)) is None
                    &&& b == old(self)@.behaviors.len()
                    &&& final(self)@ == old(self)@.add_behavior(in_order(targets_of(requests@)))
                },
                Err(e) => {
                    &&& old(self)@.rejection(targets_of(requests@)) == Some(e)
                    &&& final(self)@ == old(self)@
                },
            },
    {
        let ghost targets = targets_of(requests@);
        let ghost rising = in_order(targets);
        let behavior = match Behavior::new(requests) {
            Ok(behavior) => behavior,
            Err(e) => {
                return Err(e);
            },
        };
        proof {
            lemma_in_order(targets);
            lemma_in_order_duplicates(targets);
            lemma_rising_duplicates(rising);
            lemma_in_order_contains(targets);
        }
        let n = behavior.requests.len();
        let mut i: usize = 0;
        while i < n
            invariant
                i <= n,
                n == behavior.requests@.len(),
                n == rising.len(),
                self.cowns@.len() == self@.cowns.len(),
                behavior.agrees(fresh_behavior(rising)),
                self.wf(),
                self@ == old(self)@,
                targets == targets_of(requests@),
                targets.no_duplicates(),
                forall|x: nat| rising.contains(x) <==> targets.contains(x),
                forall|k: int| 0 <= k < i ==> self@.has_cown(#[trigger] rising[k] as int),
            decreases n - i,
        {
            if behavior.requests[i].target >= self.cowns.len() {
                proof {
                    assert(rising.contains(rising[i as int]));
                    let x = rising[i as int];
                    let w = choose|w: int| 0 <= w < targets.len() && targets[w] == x;
                }
                return Err(SubmitError::UnknownResource);
            }
            i += 1;
        }
        proof {
            assert forall|w: int| 0 <= w < targets.len() implies self@.has_cown(
                #[trigger] targets[w] as int,
            ) by {
                assert(targets.contains(targets[w]));
                let k = choose|k: int| 0 <= k < rising.len() && rising[k] == targets[w];
            }
            lemma_inv_add_behavior(self.state@, rising);
        }
        let b = self.behaviors.len();
        self.behaviors.push(behavior);
        self.state = Ghost(self.state@.add_behavior(rising));
        Ok(b)
    }

    /// What the invariant says of behavior `b` and of request `i` of it, in
    /// terms of the data.
    proof fn lemma_request(&self, b: usize, i: usize)
        requires
            self.wf(),
            b < self.behaviors@.len(),
            i < self.behaviors@[b as int].requests@.len(),
        ensures
            self@.has_behavior(b as int),
            self@.behavior_inv(b as int),
            self@.request_inv(b as int, i as int),
            self.behaviors@[b as int].agrees(self@.behaviors[b as int]),
            self.behaviors@[b as int].requests@[i as int]@ == self@.behaviors[b as int].requests[i as int],
            self.behaviors@[b as int].requests@[i as int].target < self.cowns@.len(),
    {
        assert(self.behaviors@[b as int].requests()[i as int]@ == self@.behaviors[b as int].requests[i as int]);
    }

    /// The stage after the first phase of request `at`.
    fn after_start(&self, b: usize, at: usize) -> (stage: Stage)
        requires
            b < self.behaviors@.len(),
            at < self.behaviors@[b as int].requests@.len(),
        ensures
            stage@ == if at + 1 < self.behaviors@[b as int].requests@.len() {
                Phase::Enqueue { at: (at + 1) as nat }
            } else {
                Phase::Finish { at: 0 }
            },
    {
        let n = self.behaviors[b].requests.len();
        if at + 1 < n {
            Stage::Enqueue { at: at + 1 }
        } else {
            Stage::Finish { at: 0 }
        }
    }

    /// The first phase for request `at` of behavior `b`, as far as it can be
    /// done in one step: the request is swapped into the tail of its
    /// resource.  With no predecessor it is granted at once, and a completion
    /// unit is used up; with one, the behavior goes on to wait for it.
    fn start_enqueue(&mut self, b: usize, at: usize)
        requires
            old(self).wf(),
            old(self)@.has_behavior(b as int),
            old(self)@.behaviors[b as int].phase == (Phase::Enqueue { at: at as nat }),
        ensures
            final(self).wf(),
            final(self)@ == old(self)@.enqueue(b as int, at as nat),
    {
        let ghost s = self@;
        proof {
            assert(s.behavior_inv(b as int));
            self.lemma_request(b, at);
            lemma_inv_enqueue(s, b as int, at as nat);
            lemma_count_false_zero(s.grants(b as int));
        }
        let c = self.behaviors[b].requests[at].target;
        let prev = self.cowns[c].last;
        self.cowns[c].last = Some((b, at));
        match prev {
            None => {
                let next = self.after_start(b, at);
                self.behaviors[b].resolve_one();
                self.behaviors[b].stage = next;
            },
            Some((behavior, index)) => {
                self.behaviors[b].stage = Stage::Link { at, behavior, index };
            },
        }
        self.state = Ghost(s.enqueue(b as int, at as nat));
    }

    /// The end of the first phase behind a predecessor whose flag is set: the
    /// predecessor learns whom to wake.
    fn link(&mut self, b: usize, at: usize, behavior: usize, index: usize)
        requires
            old(self).wf(),
            old(self)@.has_behavior(b as int),
            old(self)@.behaviors[b as int].phase == (Phase::Link {
                at: at as nat,
                behind: Slot { behavior: behavior as nat, index: index as nat },
            }),
            old(self)@.flag_of(Slot { behavior: behavior as nat, index: index as nat }),
        ensures
            final(self).wf(),
            final(self)@ == old(self)@.link(
                b as int,
                at as nat,
                Slot { behavior: behavior as nat, index: index as nat },
            ),
    {
        let ghost s = self@;
        let ghost behind = Slot { behavior: behavior as nat, index: index as nat };
        proof {
            lemma_predecessor(s, b as int);
            self.lemma_request(behavior, index);
            lemma_inv_link(s, b as int, at as nat, behind);
        }
        self.behaviors[behavior].requests[index].next = Some(b);
        let next = self.after_start(b, at);
        self.behaviors[b].stage = next;
        self.state = Ghost(s.link(b as int, at as nat, behind));
    }

    /// The second phase for request `at` of behavior `b`: its flag is set, so
    /// that the behavior enqueued behind it can go on.
    fn finish_enqueue(&mut self, b: usize, at: usize)
        requires
            old(self).wf(),
            old(self)@.has_behavior(b as int),
            old(self)@.behaviors[b as int].phase == (Phase::Finish { at: at as nat }),
        ensures
            final(self).wf(),
            final(self)@ == old(self)@.finish(b as int, at as nat),
    {
        let ghost s = self@;
        proof {
            assert(s.behavior_inv(b as int));
            self.lemma_request(b, at);
            lemma_inv_finish(s, b as int, at as nat);
        }
        self.behaviors[b].requests[at].scheduled = true;
        let n = self.behaviors[b].requests.len();
        let next = if at + 1 < n {
            Stage::Finish { at: at + 1 }
        } else {
            Stage::Resolve
        };
        self.behaviors[b].stage = next;
        self.state = Ghost(s.finish(b as int, at as nat));
    }

    /// The end of the second phase of behavior `b`: the completion unit
    /// reserved at construction is used up.  Returns whether the body is to
    /// be handed to the executor.
    fn resolve(&mut self, b: usize) -> (spawn: bool)
        requires
            old(self).wf(),
            old(self)@.has_behavior(b as int),
            old(self)@.behaviors[b as int].phase == Phase::Resolve,
        ensures
            final(self).wf(),
            final(self)@ == old(self)@.resolve(b as int),
            spawn == (old(self)@.behaviors[b as int].pending == 1),
    {
        let ghost s = self@;
        proof {
            assert(s.behavior_inv(b as int));
            lemma_inv_resolve(s, b as int);
        }
        let spawn = self.behaviors[b].resolve_one();
        if !spawn {
            self.behaviors[b].stage = Stage::Waiting;
        }
        self.state = Ghost(s.resolve(b as int));
        spawn
    }

    /// The executor starts the body of behavior `b`.
    fn begin(&mut self, b: usize)
        requires
            old(self).wf(),
            old(self)@.has_behavior(b as int),
            old(self)@.behaviors[b as int].phase == Phase::Spawned,
        ensures
            final(self).wf(),
            final(self)@ == old(self)@.begin(b as int),
    {
        let ghost s = self@;
        proof {
            lemma_inv_begin(s, b as int);
        }
        self.behaviors[b].stage = Stage::Running;
        self.state = Ghost(s.begin(b as int));
    }

    /// The body of behavior `b` returned.
    fn end(&mut self, b: usize)
        requires
            old(self).wf(),
            old(self)@.has_behavior(b as int),
            old(self)@.behaviors[b as int].phase == Phase::Running,
        ensures
            final(self).wf(),
            final(self)@ == old(self)@.end(b as int),
    {
        let ghost s = self@;
        proof {
            lemma_inv_end(s, b as int);
        }
        let next = if self.behaviors[b].requests.len() == 0 {
            Stage::Done
        } else {
            Stage::Release { at: 0 }
        };
        self.behaviors[b].stage = next;
        self.state = Ghost(s.end(b as int));
    }

    /// Request `at` of behavior `b` gives its resource up.  If its successor
    /// is known, the successor uses up a completion unit.  If it has none and
    /// is still the tail, the queue becomes empty.  Otherwise a successor has
    /// swapped itself in and is not yet known: nothing changes, and the step
    /// is to be tried again.
    fn release(&mut self, b: usize, at: usize) -> (action: Action)
        requires
            old(self).wf(),
            old(self)@.has_behavior(b as int),
            old(self)@.behaviors[b as int].phase == (Phase::Release { at: at as nat }),
        ensures
            final(self).wf(),
            final(self)@ == old(self)@.step(b as int),
            action == old(self)@.action(b as int),
    {
        let ghost s = self@;
        proof {
            assert(s.behavior_inv(b as int));
            self.lemma_request(b, at);
            lemma_holder_at_head(s, b as int, at as int);
            let c = s.target(b as int, at as int);
            assert(s.cown_inv(c));
            assert(s.entry_inv(c, s.cowns[c].head as int));
        }
        let c = self.behaviors[b].requests[at].target;
        let successor = self.behaviors[b].requests[at].next;
        let mut action = Action::Advanced;
        match successor {
            Some(n) => {
                proof {
                    let h = s.cowns[c as int].head as int;
                    assert(s.entry_inv(c as int, h + 1));
                    let j = s.cowns[c as int].queue[h + 1].index as int;
                    assert(s.behavior_inv(n as int));
                    assert(!s.grants(n as int)[j]);
                    lemma_count_false_zero(s.grants(n as int));
                }
                let spawn = self.behaviors[n].resolve_one();
                if spawn {
                    action = Action::Spawn(n);
                }
            },
            None => {
                let still_last = match self.cowns[c].last {
                    Some((tb, ti)) => tb == b && ti == at,
                    None => false,
                };
                if !still_last {
                    return Action::Blocked;
                }
                self.cowns[c].last = None;
            },
        }
        proof {
            lemma_inv_release(s, b as int, at as nat);
        }
        let n = self.behaviors[b].requests.len();
        let next = if at + 1 < n {
            Stage::Release { at: at + 1 }
        } else {
            Stage::Done
        };
        self.behaviors[b].stage = next;
        self.state = Ghost(s.release(b as int, at as nat));
        action
    }

    /// The next step of behavior `b`, if it can take one.  The steps of
    /// different behaviors may be taken in any order.
    pub fn step(&mut self, b: usize) -> (action: Action)
        requires
            old(self).wf(),
        ensures
            final(self).wf(),
            final(self)@ == old(self)@.step(b as int),
            action == old(self)@.action(b as int),
    {
        if b >= self.behaviors.len() {
            return Action::Blocked;
        }
        proof {
            assert(self@.behavior_inv(b as int));
        }
        match self.behaviors[b].stage {
            Stage::Enqueue { at } => {
                self.start_enqueue(b, at);
                Action::Advanced
            },
            Stage::Link { at, behavior, index } => {
                proof {
                    lemma_predecessor(self@, b as int);
                    self.lemma_request(behavior, index);
                }
                if self.behaviors[behavior].requests[index].scheduled {
                    self.link(b, at, behavior, index);
                    Action::Advanced
                } else {
                    Action::Blocked
                }
            },
            Stage::Finish { at } => {
                self.finish_enqueue(b, at);
                Action::Advanced
            },
            Stage::Resolve => {
                if self.resolve(b) {
                    Action::Spawn(b)
                } else {
                    Action::Advanced
                }
            },
            Stage::Waiting => Action::Blocked,
            Stage::Spawned => {
                self.begin(b);
                Action::Advanced
            },
            Stage::Running => {
                self.end(b);
                Action::Advanced
            },
            Stage::Release { at } => self.release(b, at),
            Stage::Done => Action::Blocked,
        }
    }

    /// Schedules behavior `b`: takes it through the two phases of enqueueing
    /// and the final decrement, as far as it can move.  `Spawn` tells that
    /// the body of `b` is to be handed to the executor, `Advanced` that `b`
    /// now waits for its resources, `Blocked` that `b` waits for the flag of
    /// a predecessor (or had nothing to enqueue): then the call is to be
    /// repeated.
    pub fn schedule(&mut self, b: usize) -> (action: Action)
        requires
            old(self).wf(),
        ensures
            final(self).wf(),
            final(self)@ == if old(self)@.has_behavior(b as int) {
                old(self)@.scheduled(b as int)
            } else {
                old(self)@
            },
            action == if !old(self)@.submitting(b as int) {
                Action::Blocked
            } else {
                match final(self)@.behaviors[b as int].phase {
                    Phase::Spawned => Action::Spawn(b),
                    Phase::Waiting => Action::Advanced,
                    _ => Action::Blocked,
                }
            },
    {
        if b >= self.behaviors.len() {
            return Action::Blocked;
        }
        let mut action = Action::Blocked;
        loop
            invariant
                old(self).wf(),
                old(self)@.has_behavior(b as int),
                self.wf(),
                self@.has_behavior(b as int),
                b < self.behaviors@.len(),
                old(self)@.scheduled(b as int) == self@.scheduled(b as int),
                !old(self)@.submitting(b as int) ==> self@ == old(self)@,
                action == if self@.submitting(b as int) || !old(self)@.submitting(b as int) {
                    Action::Blocked
                } else {
                    match self@.behaviors[b as int].phase {
                        Phase::Spawned => Action::Spawn(b),
                        Phase::Waiting => Action::Advanced,
                        _ => Action::Blocked,
                    }
                },
                action != Action::Blocked ==> !self@.submitting(b as int),
            ensures
                !self@.submitting(b as int) || !self@.enabled(b as int),
            decreases weight_of(self@.behaviors[b as int]),
        {
            proof {
                assert(self@.behavior_inv(b as int));
            }
            let submitting = match self.behaviors[b].stage {
                Stage::Enqueue { .. } => true,
                Stage::Link { .. } => true,
                Stage::Finish { .. } => true,
                Stage::Resolve => true,
                _ => false,
            };
            if !submitting {
                break ;
            }
            let ghost s = self@;
            let taken = self.step(b);
            proof {
                if s.enabled(b as int) {
                    lemma_own_weight(s, b as int);
                    lemma_inv_step(s, b as int);
                    let t = self@;
                    match s.behaviors[b as int].phase {
                        Phase::Enqueue { at } => {},
                        Phase::Link { .. } => lemma_predecessor(s, b as int),
                        Phase::Finish { at } => {},
                        Phase::Resolve => {
                            assert(t.behaviors[b as int].phase == Phase::Waiting || t.behaviors[b as int].phase
                                == Phase::Spawned);
                        },
                        _ => {},
                    }
                }
            }
            match taken {
                Action::Blocked => {
                    break ;
                },
                Action::Advanced => {
                    match self.behaviors[b].stage {
                        Stage::Waiting => {
                            action = Action::Advanced;
                        },
                        _ => {},
                    }
                },
                Action::Spawn(_) => {
                    action = Action::Spawn(b);
                },
            }
        }
        action
    }

    /// Releases the requests of behavior `b`, whose body returned, one after
    /// the other, as far as `b` can move.  Returns the behaviors whose bodies
    /// are now to be handed to the executor.  `b` is done after the call
    /// unless a successor has swapped itself in behind a request and is not
    /// yet known to it: then the call is to be repeated.
    pub fn complete(&mut self, b: usize) -> (woken: Vec<usize>)
        requires
            old(self).wf(),
        ensures
            final(self).wf(),
            final(self)@ == if old(self)@.has_behavior(b as int) {
                old(self)@.completed(b as int)
            } else {
                old(self)@
            },
            woken@.len() == if old(self)@.has_behavior(b as int) {
                old(self)@.woken(b as int).len()
            } else {
                0
            },
            forall|i: int|
                0 <= i < woken@.len() ==> (#[trigger] woken@[i]) as nat == old(self)@.woken(b as int)[i],
    {
        let mut woken: Vec<usize> = Vec::new();
        if b >= self.behaviors.len() {
            return woken;
        }
        loop
            invariant
                old(self).wf(),
                old(self)@.has_behavior(b as int),
                self.wf(),
                self@.has_behavior(b as int),
                b < self.behaviors@.len() <= usize::MAX,
                old(self)@.completed(b as int) == self@.completed(b as int),
                old(self)@.woken(b as int) =~= Seq::new(woken@.len(), |i: int| woken@[i] as nat)
                    + self@.woken(b as int),
            ensures
                !self@.releasing(b as int) || !self@.enabled(b as int),
            decreases weight_of(self@.behaviors[b as int]),
        {
            let releasing = match self.behaviors[b].stage {
                Stage::Release { .. } => true,
                _ => false,
            };
            if !releasing {
                break ;
            }
            let ghost s = self@;
            let ghost before = Seq::new(woken@.len(), |i: int| woken@[i] as nat);
            let taken = self.step(b);
            proof {
                if s.enabled(b as int) {
                    lemma_own_weight(s, b as int);
                    lemma_inv_step(s, b as int);
                }
            }
            match taken {
                Action::Blocked => {
                    break ;
                },
                Action::Advanced => {},
                Action::Spawn(n) => {
                    woken.push(n);
                    proof {
                        let m = s.spawned_by(b as int)->0;
                        let after = Seq::new(woken@.len(), |i: int| woken@[i] as nat);
                        lemma_successor(s, b as int, s.behaviors[b as int].phase->Release_at);
                        assert(n == m);
                        assert(after =~= before + seq![m]);
                        assert((before + seq![m]) + self@.woken(b as int) =~= before + (seq![m]
                            + self@.woken(b as int)));
                    }
                },
            }
        }
        woken
    }

    /// The stage of behavior `b`, if there is such a behavior.
    pub fn stage(&self, b: usize) -> (stage: Option<Stage>)
        requires
            self.wf(),
        ensures
            match stage {
                Some(stage) => self@.has_behavior(b as int) && stage@ == self@.behaviors[b as int].phase,
                None => !self@.has_behavior(b as int),
            },
    {
        if b < self.behaviors.len() {
            Some(self.behaviors[b].stage)
        } else {
            None
        }
    }

    /// The completion counter of behavior `b`, if there is such a behavior.
    pub fn pending(&self, b: usize) -> (pending: Option<u128>)
        requires
            self.wf(),
        ensures
            match pending {
                Some(count) => self@.has_behavior(b as int) && count == self@.behaviors[b as int].pending,
                None => !self@.has_behavior(b as int),
            },
    {
        if b < self.behaviors.len() {
            Some(self.behaviors[b].count)
        } else {
            None
        }
    }

    /// The requests of behavior `b` as they stand, in the order in which the
    /// behavior presents them; none if there is no such behavior.
    pub fn requests(&self, b: usize) -> (requests: Vec<Request>)
        requires
            self.wf(),
        ensures
            requests@.len() == if self@.has_behavior(b as int) {
                self@.behaviors[b as int].requests.len()
            } else {
                0
            },
            forall|i: int|
                0 <= i < requests@.len() ==> (#[trigger] requests@[i])@ == self@.behaviors[b as int].requests[i],
    {
        let mut requests: Vec<Request> = Vec::new();
        if b >= self.behaviors.len() {
            return requests;
        }
        let n = self.behaviors[b].requests.len();
        let mut i: usize = 0;
        while i < n
            invariant
                i <= n,
                b < self.behaviors@.len(),
                n == self.behaviors@[b as int].requests@.len(),
                requests@.len() == i,
                forall|k: int| 0 <= k < i ==> requests@[k] == self.behaviors@[b as int].requests@[k],
            decreases n - i,
        {
            requests.push(self.behaviors[b].requests[i]);
            i += 1;
        }
        proof {
            assert forall|i: int| 0 <= i < requests@.len() implies (#[trigger] requests@[i])@
                == self@.behaviors[b as int].requests[i] by {}
        }
        requests
    }

    /// The request that was enqueued last on resource `c` and is not yet
    /// released, as the number of its behavior and its place among the
    /// requests of that behavior; none if the queue is empty or there is no
    /// such resource.
    pub fn last(&self, c: usize) -> (last: Option<(usize, usize)>)
        requires
            self.wf(),
        ensures
            match last {
                Some((b, i)) => self@.has_cown(c as int) && self@.cowns[c as int].tail == Some(
                    Slot { behavior: b as nat, index: i as nat },
                ),
                None => !self@.has_cown(c as int) || self@.cowns[c as int].tail is None,
            },
    {
        if c < self.cowns.len() {
            self.cowns[c].last
        } else {
            None
        }
    }
}

} // verus!
