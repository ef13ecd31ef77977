//! Behaviors that run: resources with a payload, groups of them, and the
//! submission of a closure that gets exclusive access to a group.

use std::sync::Arc;
use vstd::prelude::*;
use vstd::rwlock::{RwLock, RwLockPredicate, WriteHandle};
use crate::drive::{
    lemma_completed_at_rest, lemma_scheduled_at_rest, lemma_woken_are_the_spawned,
};
use crate::model::{fresh_request, Phase, State};
use crate::request::{in_order, targets_of, Request};
use crate::safety::lemma_inv_step;
use crate::scheduler::{Action, Behavior, Scheduler, Stage, SubmitError};

verus! {

/// `rayon::spawn` puts `func` on rayon's global thread pool and returns
/// without waiting for it; some worker thread calls `func` once, later, in
/// no promised order.  The contract asks only that `func` can be called, and
/// promises nothing of the call.  Not proved: rayon panics here if its
/// global thread pool cannot be built, and it aborts the process if `func`
/// panics and the pool has no panic handler.
pub assume_specification<F>[ rayon::spawn ](func: F) where F: FnOnce() + Send + 'static
    requires
        call_requires(func, ()),
;

/// `Arc::clone` makes another pointer to the same allocation: what the copy
/// points to is what `a` points to.
#[verifier::external_body]
fn share<T>(a: &Arc<T>) -> (copy: Arc<T>)
    ensures
        *copy == **a,
{
    Arc::clone(a)
}

/// `Arc::ptr_eq` tells whether two pointers point to the same allocation.
/// The contract claims only that pointers to the same allocation point to
/// the same value; of pointers to different allocations it claims nothing.
#[verifier::external_body]
fn same<T>(a: &Arc<T>, b: &Arc<T>) -> (r: bool)
    ensures
        r ==> **a == **b,
{
    Arc::ptr_eq(a, b)
}

/// A unit of work for the executor.  It can always be run.
pub trait Thunk: Send + Sync {
    fn run(self: Box<Self>);
}

/// A body that waits to be run: one unit of work, kept as it was given.
pub struct Job {
    pub thunk: Box<dyn Thunk>,
}

impl Job {
    /// Wraps a unit of work.
    pub fn new(thunk: Box<dyn Thunk>) -> (job: Job)
        ensures
            job == (Job { thunk }),
    {
        Job { thunk }
    }

    /// Runs the unit of work that the job keeps.
    pub fn run(self) {
        self.thunk.run();
    }
}

/// Every value may be stored in a resource.
pub struct AnyValue;

impl<T> RwLockPredicate<T> for AnyValue {
    open spec fn inv(self, v: T) -> bool {
        true
    }
}

/// What the threads share: the scheduler, and the bodies that wait to be
/// run.
pub struct Shared {
    scheduler: Scheduler,
    thunks: Vec<Option<Job>>,
}

impl Shared {
    /// The state of the protocol.
    pub closed spec fn state(&self) -> State {
        self.scheduler@
    }

    /// For each behavior, its body while it is kept here.
    pub closed spec fn bodies(&self) -> Seq<Option<Job>> {
        self.thunks@
    }

    /// The body of behavior `b` is kept here.
    pub open spec fn keeps(&self, b: int) -> bool {
        self.bodies()[b] is Some
    }

    /// Between two operations every behavior is at rest, and the bodies kept
    /// are those of the behaviors that have not begun to run.
    pub closed spec fn wf(&self) -> bool {
        &&& self.scheduler.wf()
        &&& self.scheduler@.settled()
        &&& self.thunks@.len() == self.scheduler@.behaviors.len()
        &&& forall|b: int|
            0 <= b < self.thunks@.len() ==> ((#[trigger] self.thunks@[b]) is Some
                <==> self.scheduler@.parked(b))
    }

    /// What holds of the shared state whenever no thread works on it: the
    /// invariant of the protocol, with every behavior at rest.
    pub proof fn lemma_wf(&self)
        requires
            self.wf(),
        ensures
            self.state().inv(),
            self.state().settled(),
            self.bodies().len() == self.state().behaviors.len(),
            forall|b: int| self.state().has_behavior(b) ==> (self.keeps(b) <==> self.state().parked(b)),
    {
    }

    /// No resources, no behaviors.
    pub fn new() -> (shared: Shared)
        ensures
            shared.wf(),
            shared.state() == State::empty(),
            shared.bodies() == Seq::<Option<Job>>::empty(),
    {
        Shared { scheduler: Scheduler::new(), thunks: Vec::new() }
    }

    /// Creates a resource and returns its number.
    pub fn add_cown(&mut self) -> (c: usize)
        requires
            old(self).wf(),
        ensures
            final(self).wf(),
            final(self).state() == old(self).state().add_cown(),
            final(self).bodies() == old(self).bodies(),
            c == old(self).state().cowns.len(),
    {
        let c = self.scheduler.add_cown();
        proof {
            assert forall|a: int| self.scheduler@.has_behavior(a) implies #[trigger] self.scheduler@.at_rest(
                a,
            ) by {
                assert(old(self).scheduler@.at_rest(a));
            }
        }
        c
    }

    /// Creates a resource that holds `value`, with an empty queue, and
    /// returns a handle to it: the handle has the number that the scheduler
    /// gave the resource, the next free one, and `home` as its runtime.
    pub fn add_handle<T: Send + Sync>(
        &mut self,
        value: T,
        home: Arc<RwLock<Shared, SharedInv>>,
    ) -> (cown: CownPtr<T>)
        requires
            old(self).wf(),
        ensures
            final(self).wf(),
            final(self).state() == old(self).state().add_cown(),
            final(self).bodies() == old(self).bodies(),
            cown.id() == old(self).state().cowns.len(),
            cown.home() == *home,
    {
        let id = self.add_cown();
        CownPtr { id, value: Arc::new(RwLock::new(value, Ghost(AnyValue))), home }
    }

    /// Submits a behavior: registers it, enqueues its requests in both
    /// phases and keeps `job` as its body.  Returns the number of the
    /// behavior if its body is to be handed to the executor at once.
    pub fn enter(&mut self, requests: Vec<Request>, job: Job) -> (r: Result<
        Option<usize>,
        SubmitError,
    >)
        requires
            old(self).wf(),
        ensures
            final(self).wf(),
            match r {
                Ok(spawn) => {
                    let b = old(self).state().behaviors.len() as int;
                    let s = old(self).state().add_behavior(in_order(targets_of(requests@)));
                    &&& old(self).state().rejection(targets_of(requests@)) is None
                    &&& final(self).state() == s.scheduled(b)
                    &&& final(self).bodies() == old(self).bodies().push(Some(job))
                    &&& spawn == if final(self).state().behaviors[b].phase == Phase::Spawned {
                        Some(b as usize)
                    } else {
                        None
                    }
                },
                Err(e) => {
                    &&& old(self).state().rejection(targets_of(requests@)) == Some(e)
                    &&& final(self).state() == old(self).state()
                    &&& final(self).bodies() == old(self).bodies()
                },
            },
    {
        let b = match self.scheduler.submit(requests) {
            Ok(b) => b,
            Err(e) => {
                return Err(e);
            },
        };
        let ghost s = self.scheduler@;
        proof {
            assert forall|a: int| s.has_behavior(a) && a != b implies #[trigger] s.at_rest(a) by {
                assert(old(self).scheduler@.at_rest(a));
            }
            lemma_scheduled_at_rest(s, b as int);
        }
        let action = self.scheduler.schedule(b);
        self.thunks.push(Some(job));
        proof {
            let t = self.scheduler@;
            assert forall|a: int| 0 <= a < self.thunks@.len() implies ((#[trigger] self.thunks@[a]) is Some
                <==> t.parked(a)) by {}
        }
        match action {
            Action::Spawn(_) => Ok(Some(b)),
            _ => Ok(None),
        }
    }

    /// The executor starts behavior `b`: hands out the body that was kept
    /// for it, once, when all its requests are granted.
    pub fn start(&mut self, b: usize) -> (job: Option<Job>)
        requires
            old(self).wf(),
        ensures
            final(self).wf(),
            match job {
                Some(job) => {
                    &&& old(self).state().has_behavior(b as int)
                    &&& old(self).state().behaviors[b as int].phase == Phase::Spawned
                    &&& final(self).state() == old(self).state().begin(b as int)
                    &&& old(self).bodies()[b as int] == Some(job)
                    &&& final(self).bodies() == old(self).bodies().update(b as int, None)
                },
                None => {
                    &&& final(self).state() == old(self).state()
                    &&& final(self).bodies() == old(self).bodies()
                    &&& !(old(self).state().has_behavior(b as int) && old(self).state().behaviors[b as int].phase
                        == Phase::Spawned)
                },
            },
    {
        match self.scheduler.stage(b) {
            Some(Stage::Spawned) => {},
            _ => {
                return None;
            },
        }
        let ghost s = self.scheduler@;
        self.scheduler.step(b);
        let job = self.thunks[b].take();
        proof {
            let t = self.scheduler@;
            assert forall|a: int| t.has_behavior(a) implies #[trigger] t.at_rest(a) by {
                assert(s.at_rest(a));
            }
            assert forall|a: int| 0 <= a < self.thunks@.len() implies ((#[trigger] self.thunks@[a]) is Some
                <==> t.parked(a)) by {}
        }
        job
    }

    /// The body of behavior `b` returned: its resources are given up.
    /// Returns the behaviors whose bodies are now to be handed to the
    /// executor.
    pub fn finish(&mut self, b: usize) -> (woken: Vec<usize>)
        requires
            old(self).wf(),
        ensures
            final(self).wf(),
            old(self).state().has_behavior(b as int) && old(self).state().behaviors[b as int].phase
                == Phase::Running ==> {
                &&& final(self).state() == old(self).state().end(b as int).completed(b as int)
                &&& final(self).state().behaviors[b as int].phase == Phase::Done
                &&& woken@.len() == old(self).state().end(b as int).woken(b as int).len()
                &&& forall|i: int|
                    0 <= i < woken@.len() ==> (#[trigger] woken@[i]) as nat == old(self).state().end(
                        b as int,
                    ).woken(b as int)[i]
                &&& forall|i: int|
                    0 <= i < woken@.len() ==> {
                        &&& old(self).state().behaviors[(#[trigger] woken@[i]) as int].phase
                            == Phase::Waiting
                        &&& final(self).state().behaviors[woken@[i] as int].phase == Phase::Spawned
                        &&& final(self).keeps(woken@[i] as int)
                    }
                &&& forall|i: int, j: int|
                    0 <= i < j < woken@.len() ==> woken@[i] != woken@[j]
            },
            !(old(self).state().has_behavior(b as int) && old(self).state().behaviors[b as int].phase
                == Phase::Running) ==> final(self).state() == old(self).state() && woken@.len() == 0,
            final(self).bodies() == old(self).bodies(),
    {
        match self.scheduler.stage(b) {
            Some(Stage::Running) => {},
            _ => {
                return Vec::new();
            },
        }
        let ghost s = self.scheduler@;
        self.scheduler.step(b);
        let ghost m = self.scheduler@;
        proof {
            lemma_inv_step(s, b as int);
            assert forall|a: int| m.has_behavior(a) && a != b implies #[trigger] m.at_rest(a) by {
                assert(s.at_rest(a));
            }
            lemma_completed_at_rest(m, b as int);
            lemma_woken_are_the_spawned(m, b as int);
        }
        let woken = self.scheduler.complete(b);
        proof {
            let t = self.scheduler@;
            assert forall|a: int| 0 <= a < self.thunks@.len() implies ((#[trigger] self.thunks@[a]) is Some
                <==> t.parked(a)) by {}
        }
        woken
    }
}

/// What the lock asks of the shared state whenever it is given back.
pub struct SharedInv;

impl RwLockPredicate<Shared> for SharedInv {
    open spec fn inv(self, v: Shared) -> bool {
        v.wf()
    }
}

/// A handle to a scheduler that threads share.  Copies of the handle refer
/// to the same scheduler.
pub struct Runtime {
    shared: Arc<RwLock<Shared, SharedInv>>,
}

impl Clone for Runtime {
    fn clone(&self) -> (copy: Runtime)
        ensures
            copy.scheduler() == self.scheduler(),
    {
        Runtime { shared: share(&self.shared) }
    }
}

impl Runtime {
    /// The lock that keeps the scheduler of this runtime: what tells one
    /// runtime from another.
    pub closed spec fn scheduler(&self) -> RwLock<Shared, SharedInv> {
        *self.shared
    }

    /// A scheduler of its own, without resources or behaviors.
    pub fn new() -> (rt: Runtime) {
        Runtime { shared: Arc::new(RwLock::new(Shared::new(), Ghost(SharedInv))) }
    }

    /// Hands behavior `b` to the executor.
    fn dispatch(&self, b: usize) {
        let task: Box<dyn Thunk> = Box::new(Task { rt: self.clone(), b });
        rayon::spawn(move || { task.run(); });
    }
}

/// The work that the executor does for one behavior: run the body, then
/// release the resources and hand on the behaviors that this wakes.
struct Task {
    rt: Runtime,
    b: usize,
}

impl Thunk for Task {
    fn run(self: Box<Self>) {
        let (shared, handle) = self.rt.shared.acquire_write();
        let mut shared = shared;
        let job = shared.start(self.b);
        handle.release_write(shared);
        match job {
            Some(job) => {
                job.run();
                let (shared, handle) = self.rt.shared.acquire_write();
                let mut shared = shared;
                let woken = shared.finish(self.b);
                handle.release_write(shared);
                let mut i: usize = 0;
                while i < woken.len()
                    invariant
                        i <= woken.len(),
                    decreases woken.len() - i,
                {
                    self.rt.dispatch(woken[i]);
                    i += 1;
                }
            },
            None => {},
        }
    }
}

/// The right to reach into the payload of resources.  Only a behavior that
/// runs has one: nothing outside this module can make a `Grant`.
pub struct Grant {
    seal: (),
}

/// A handle to a resource: a value that only a running behavior can reach.
/// Copies of the handle refer to the same resource.
pub struct CownPtr<T: Send + Sync> {
    id: usize,
    value: Arc<RwLock<T, AnyValue>>,
    home: Arc<RwLock<Shared, SharedInv>>,
}

impl<T: Send + Sync> Clone for CownPtr<T> {
    fn clone(&self) -> (copy: CownPtr<T>)
        ensures
            copy.id() == self.id(),
            copy.payload() == self.payload(),
            copy.home() == self.home(),
    {
        CownPtr { id: self.id, value: share(&self.value), home: share(&self.home) }
    }
}

impl<T: Send + Sync> CownPtr<T> {
    /// The number of the resource in its scheduler.
    pub closed spec fn id(&self) -> nat {
        self.id as nat
    }

    /// The lock that keeps the payload of the resource.
    pub closed spec fn payload(&self) -> RwLock<T, AnyValue> {
        *self.value
    }

    /// The lock that keeps the scheduler of the resource: that of the
    /// runtime in which the resource was created.
    pub closed spec fn home(&self) -> RwLock<Shared, SharedInv> {
        *self.home
    }

    /// Creates a resource of the runtime `rt` that holds `value`, with an
    /// empty queue: under the lock of `rt`, by `Shared::add_handle`, which
    /// numbers the handle.  The handle is for behaviors of `rt` alone.
    pub fn new(rt: &Runtime, value: T) -> (cown: CownPtr<T>)
        ensures
            cown.home() == rt.scheduler(),
    {
        let home = share(&rt.shared);
        let (shared, handle) = rt.shared.acquire_write();
        let mut shared = shared;
        let cown = shared.add_handle(value, home);
        handle.release_write(shared);
        cown
    }

    /// Whether this is a handle of the runtime `rt`.
    fn belongs(&self, rt: &Runtime) -> (r: bool)
        ensures
            r ==> self.home() == rt.scheduler(),
    {
        same(&self.home, &rt.shared)
    }

    /// A request for this resource.
    fn request(&self) -> (r: Request)
        ensures
            r@ == fresh_request(self.id()),
    {
        Request::new(self.id)
    }
}

/// A group of handles: the resources that a behavior asks for.  The body of
/// the behavior gets one exclusive reference for each handle, in the shape
/// of the group.
pub trait CownPtrs {
    /// The references that the body gets.
    type CownRefs<'l>;

    /// The payloads, while the body has them.
    type Values: 'static;

    /// What gives the payloads back to the resources.
    type Handles<'h>;

    /// The numbers of the resources, in the order of `requests`.
    spec fn ids(&self) -> Seq<nat>;

    /// One new request for each resource of the group.
    fn requests(&self) -> (requests: Vec<Request>)
        ensures
            requests@.len() == self.ids().len(),
            forall|i: int|
                0 <= i < requests@.len() ==> (#[trigger] requests@[i])@ == fresh_request(self.ids()[i]),
    ;

    /// Every handle of the group is a handle of the runtime `rt`.
    spec fn all_of(&self, rt: &Runtime) -> bool;

    /// Tells whether the handles of the group are handles of `rt`.  A group
    /// that passes holds handles of `rt` alone; the empty group passes.
    fn belongs(&self, rt: &Runtime) -> (r: bool)
        ensures
            r ==> self.all_of(rt),
            self.ids().len() == 0 ==> r,
    ;

    /// There is one of `handles` for each of `values`.
    spec fn fits(values: Self::Values, handles: Self::Handles<'_>) -> bool;

    /// `handles` are for the payloads of this group: one for the payload
    /// lock of each resource, in the shape of the group.
    spec fn guards(&self, handles: Self::Handles<'_>) -> bool;

    /// Takes the payloads out of the resources.
    fn acquire<'h>(&'h self, grant: &Grant) -> (held: (Self::Values, Self::Handles<'h>))
        ensures
            Self::fits(held.0, held.1),
            self.guards(held.1),
    ;

    /// The references `refs` see the payloads `values`, one each, in the
    /// shape of the group.
    spec fn sees(refs: Self::CownRefs<'_>, values: Self::Values) -> bool;

    /// An exclusive reference to each payload.
    fn get_mut<'l>(values: &'l mut Self::Values) -> (refs: Self::CownRefs<'l>)
        ensures
            Self::sees(refs, *old(values)),
            forall|handles: Self::Handles<'_>| #[trigger]
                Self::fits(*old(values), handles) ==> Self::fits(*final(values), handles),
    ;

    /// Puts the payloads back, each through its handle.
    fn release<'h>(values: Self::Values, handles: Self::Handles<'h>)
        requires
            Self::fits(values, handles),
    ;
}

impl CownPtrs for () {
    type CownRefs<'l> = ();

    type Values = ();

    type Handles<'h> = ();

    open spec fn ids(&self) -> Seq<nat> {
        Seq::empty()
    }

    fn requests(&self) -> (requests: Vec<Request>) {
        Vec::new()
    }

    open spec fn all_of(&self, rt: &Runtime) -> bool {
        true
    }

    fn belongs(&self, rt: &Runtime) -> (r: bool) {
        true
    }

    open spec fn guards(&self, handles: Self::Handles<'_>) -> bool {
        true
    }

    fn acquire<'h>(&'h self, grant: &Grant) -> (held: (Self::Values, Self::Handles<'h>)) {
        ((), ())
    }

    open spec fn fits(values: Self::Values, handles: Self::Handles<'_>) -> bool {
        true
    }

    open spec fn sees(refs: Self::CownRefs<'_>, values: Self::Values) -> bool {
        true
    }

    fn get_mut<'l>(values: &'l mut Self::Values) -> (refs: Self::CownRefs<'l>) {
        ()
    }

    fn release<'h>(values: Self::Values, handles: Self::Handles<'h>) {
    }
}

impl<T: Send + Sync + 'static, Ts: CownPtrs> CownPtrs for (CownPtr<T>, Ts) {
    type CownRefs<'l> = (&'l mut T, Ts::CownRefs<'l>);

    type Values = (T, Ts::Values);

    type Handles<'h> = (WriteHandle<'h, T, AnyValue>, Ts::Handles<'h>);

    open spec fn ids(&self) -> Seq<nat> {
        self.1.ids().push(self.0.id())
    }

    fn requests(&self) -> (requests: Vec<Request>) {
        let mut rs = self.1.requests();
        rs.push(self.0.request());
        rs
    }

    open spec fn all_of(&self, rt: &Runtime) -> bool {
        self.0.home() == rt.scheduler() && self.1.all_of(rt)
    }

    fn belongs(&self, rt: &Runtime) -> (r: bool) {
        self.0.belongs(rt) && self.1.belongs(rt)
    }

    open spec fn guards(&self, handles: Self::Handles<'_>) -> bool {
        handles.0.rwlock() == self.0.payload() && self.1.guards(handles.1)
    }

    fn acquire<'h>(&'h self, grant: &Grant) -> (held: (Self::Values, Self::Handles<'h>)) {
        let (value, handle) = self.0.value.acquire_write();
        let (values, handles) = self.1.acquire(grant);
        ((value, values), (handle, handles))
    }

    open spec fn fits(values: Self::Values, handles: Self::Handles<'_>) -> bool {
        Ts::fits(values.1, handles.1)
    }

    open spec fn sees(refs: Self::CownRefs<'_>, values: Self::Values) -> bool {
        *refs.0 == values.0 && Ts::sees(refs.1, values.1)
    }

    fn get_mut<'l>(values: &'l mut Self::Values) -> (refs: Self::CownRefs<'l>)
        ensures
            *final(refs.0) == final(values).0,
    {
        (&mut values.0, Ts::get_mut(&mut values.1))
    }

    fn release<'h>(values: Self::Values, handles: Self::Handles<'h>) {
        let (value, rest) = values;
        let (handle, others) = handles;
        handle.release_write(value);
        Ts::release(rest, others);
    }
}

impl<T: Send + Sync + 'static> CownPtrs for Vec<CownPtr<T>> {
    type CownRefs<'l> = Vec<&'l mut T>;

    type Values = Vec<T>;

    type Handles<'h> = Vec<WriteHandle<'h, T, AnyValue>>;

    open spec fn ids(&self) -> Seq<nat> {
        Seq::new(self@.len(), |i: int| self@[i].id())
    }

    fn requests(&self) -> (requests: Vec<Request>) {
        let mut rs: Vec<Request> = Vec::new();
        let mut i: usize = 0;
        while i < self.len()
            invariant
                i <= self.len(),
                rs@.len() == i,
                forall|k: int| 0 <= k < i ==> (#[trigger] rs@[k])@ == fresh_request(self@[k].id()),
            decreases self.len() - i,
        {
            rs.push(self[i].request());
            i += 1;
        }
        rs
    }

    open spec fn all_of(&self, rt: &Runtime) -> bool {
        forall|i: int| 0 <= i < self@.len() ==> (#[trigger] self@[i]).home() == rt.scheduler()
    }

    fn belongs(&self, rt: &Runtime) -> (r: bool) {
        let mut i: usize = 0;
        while i < self.len()
            invariant
                i <= self.len(),
                forall|k: int| 0 <= k < i ==> (#[trigger] self@[k]).home() == rt.scheduler(),
            decreases self.len() - i,
        {
            if !self[i].belongs(rt) {
                return false;
            }
            i += 1;
        }
        true
    }

    open spec fn guards(&self, handles: Self::Handles<'_>) -> bool {
        &&& handles@.len() == self@.len()
        &&& forall|i: int| 0 <= i < self@.len() ==> (#[trigger] handles@[i]).rwlock() == self@[i].payload()
    }

    fn acquire<'h>(&'h self, grant: &Grant) -> (held: (Self::Values, Self::Handles<'h>)) {
        let mut values: Vec<T> = Vec::new();
        let mut handles: Vec<WriteHandle<'h, T, AnyValue>> = Vec::new();
        let mut i: usize = 0;
        while i < self.len()
            invariant
                i <= self.len(),
                values@.len() == i,
                handles@.len() == i,
                forall|k: int| 0 <= k < i ==> (#[trigger] handles@[k]).rwlock() == self@[k].payload(),
            decreases self.len() - i,
        {
            let (value, handle) = self[i].value.acquire_write();
            values.push(value);
            handles.push(handle);
            i += 1;
        }
        (values, handles)
    }

    open spec fn fits(values: Self::Values, handles: Self::Handles<'_>) -> bool {
        values@.len() == handles@.len()
    }

    open spec fn sees(refs: Self::CownRefs<'_>, values: Self::Values) -> bool {
        &&& refs@.len() == values@.len()
        &&& forall|i: int| 0 <= i < refs@.len() ==> *refs@[i] == values@[i]
    }

    fn get_mut<'l>(values: &'l mut Self::Values) -> (refs: Self::CownRefs<'l>)
        ensures
            final(values)@.len() == refs@.len(),
            forall|i: int| 0 <= i < refs@.len() ==> *final(refs@[i]) == final(values)@[i],
    {
        let mut refs: Vec<&'l mut T> = Vec::new();
        let ghost n = values@.len();
        let ghost end = final(values)@;
        let mut rest: &'l mut [T] = values.as_mut_slice();
        while rest.len() > 0
            invariant
                n == old(values)@.len(),
                refs@.len() + rest@.len() == n,
                rest@ == old(values)@.subrange(refs@.len() as int, n as int),
                forall|i: int| 0 <= i < refs@.len() ==> *refs@[i] == old(values)@[i],
                end.len() == refs@.len() + final(rest)@.len(),
                forall|i: int| 0 <= i < refs@.len() ==> *final(refs@[i]) == end[i],
                forall|i: int| 0 <= i < final(rest)@.len() ==> final(rest)@[i] == end[refs@.len() + i],
            decreases rest.len(),
        {
            let ghost whole = final(rest)@;
            let (head, tail) = rest.split_at_mut(1);
            let ghost others = final(tail)@;
            match head.first_mut() {
                Some(r) => {
                    assert(whole[0] == *final(r));
                    refs.push(r);
                },
                None => {},
            }
            rest = tail;
            assert forall|i: int| 0 <= i < others.len() implies others[i] == end[refs@.len() + i] by {
                assert(whole[i + 1] == others[i]);
            }
        }
        refs
    }

    fn release<'h>(values: Self::Values, handles: Self::Handles<'h>) {
        let mut values = values;
        let mut handles = handles;
        while values.len() > 0
            invariant
                values@.len() == handles@.len(),
            decreases values.len(),
        {
            match (values.pop(), handles.pop()) {
                (Some(value), Some(handle)) => {
                    handle.release_write(value);
                },
                _ => {},
            }
        }
    }
}

/// The body of a behavior: a closure and the resources it works on.
struct Body<C: CownPtrs, F: for<'l> Fn(C::CownRefs<'l>)> {
    cowns: C,
    f: F,
}

impl<C: CownPtrs, F: for<'l> Fn(C::CownRefs<'l>)> Body<C, F> {
    /// The closure accepts whatever the resources hold.
    #[verifier::type_invariant]
    spec fn callable(self) -> bool {
        forall|refs: C::CownRefs<'_>| call_requires(self.f, (refs,))
    }
}

impl<C, F> Thunk for Body<C, F> where
    C: CownPtrs + Send + Sync + 'static,
    F: for<'l> Fn(C::CownRefs<'l>) + Send + Sync + 'static,
{
    /// Runs the closure with exclusive references to the payloads.
    fn run(self: Box<Self>) {
        proof {
            use_type_invariant(&*self);
        }
        let grant = Grant { seal: () };
        let (values, handles) = self.cowns.acquire(&grant);
        let mut values = values;
        (self.f)(C::get_mut(&mut values));
        C::release(values, handles);
    }
}

/// Creates a behavior and schedules it: `f` is run once, on some thread of
/// the executor, with exclusive access to the resources of `cowns`, after
/// every behavior that was submitted before and shares a resource.  Returns
/// at once, without waiting for `f`.  A group that names one resource twice
/// is refused (`DuplicateResource`); so is a group with a handle that
/// another runtime made (`ForeignResource`), and one with a handle whose
/// number `rt` does not know (`UnknownResource`).
pub fn run_when<C, F>(rt: &Runtime, cowns: C, f: F) -> (r: Result<(), SubmitError>) where
    C: CownPtrs + Send + Sync + 'static,
    F: for<'l> Fn(C::CownRefs<'l>) + Send + Sync + 'static,

    requires
        forall|refs: C::CownRefs<'_>| call_requires(f, (refs,)),
    ensures
        r == Err::<(), SubmitError>(SubmitError::DuplicateResource) <==> !cowns.ids().no_duplicates(),
        cowns.ids().len() == 0 ==> r is Ok,
        r is Ok || r == Err::<(), SubmitError>(SubmitError::UnknownResource) ==> cowns.all_of(rt),
{
    let requests = cowns.requests();
    proof {
        assert(targets_of(requests@) =~= cowns.ids());
    }
    if !cowns.belongs(rt) {
        return match Behavior::new(requests) {
            Ok(_) => Err(SubmitError::ForeignResource),
            Err(e) => Err(e),
        };
    }
    let body: Box<dyn Thunk> = Box::new(Body { cowns, f });
    let (shared, handle) = rt.shared.acquire_write();
    let mut shared = shared;
    let entered = shared.enter(requests, Job::new(body));
    handle.release_write(shared);
    match entered {
        Ok(Some(b)) => {
            rt.dispatch(b);
            Ok(())
        },
        Ok(None) => Ok(()),
        Err(e) => Err(e),
    }
}

} // verus!
