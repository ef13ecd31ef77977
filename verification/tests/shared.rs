use std::sync::atomic::{AtomicUsize, Ordering};
use std::sync::Arc;

use boc::runtime::{Job, Shared, Thunk};
use boc::{Request, SubmitError};

struct Mark {
    hits: Arc<AtomicUsize>,
}

impl Thunk for Mark {
    fn run(self: Box<Self>) {
        self.hits.fetch_add(1, Ordering::SeqCst);
    }
}

fn job(hits: &Arc<AtomicUsize>) -> Job {
    Job::new(Box::new(Mark { hits: hits.clone() }))
}

fn group(targets: &[usize]) -> Vec<Request> {
    targets.iter().map(|t| Request::new(*t)).collect()
}

#[test]
fn shared_enter_spawns_a_behavior_whose_resources_are_free() {
    let hits = Arc::new(AtomicUsize::new(0));
    let mut s = Shared::new();
    assert_eq!(s.add_cown(), 0);
    assert_eq!(s.add_cown(), 1);
    assert_eq!(s.enter(group(&[1, 0]), job(&hits)), Ok(Some(0)));
    // the second behavior shares a resource and has to wait
    assert_eq!(s.enter(group(&[1]), job(&hits)), Ok(None));
    // a third one on the other resource waits as well
    assert_eq!(s.enter(group(&[0]), job(&hits)), Ok(None));
    // a behavior with no resources is free at once
    assert_eq!(s.enter(group(&[]), job(&hits)), Ok(Some(3)));
    assert_eq!(hits.load(Ordering::SeqCst), 0);
}

#[test]
fn shared_enter_refuses_and_changes_nothing() {
    let hits = Arc::new(AtomicUsize::new(0));
    let mut s = Shared::new();
    s.add_cown();
    assert_eq!(s.enter(group(&[0, 0]), job(&hits)), Err(SubmitError::DuplicateResource));
    assert_eq!(s.enter(group(&[1]), job(&hits)), Err(SubmitError::UnknownResource));
    // the next behavior gets the first number
    assert_eq!(s.enter(group(&[0]), job(&hits)), Ok(Some(0)));
}

#[test]
fn shared_start_hands_the_body_out_once() {
    let hits = Arc::new(AtomicUsize::new(0));
    let mut s = Shared::new();
    s.add_cown();
    assert_eq!(s.enter(group(&[0]), job(&hits)), Ok(Some(0)));
    assert_eq!(s.enter(group(&[0]), job(&hits)), Ok(None));
    // the waiting behavior cannot be started
    assert!(s.start(1).is_none());
    // nor one that does not exist
    assert!(s.start(7).is_none());
    let body = s.start(0).unwrap();
    assert!(s.start(0).is_none());
    body.run();
    assert_eq!(hits.load(Ordering::SeqCst), 1);
    assert!(s.start(0).is_none());
}

#[test]
fn shared_finish_wakes_the_successors() {
    let hits = Arc::new(AtomicUsize::new(0));
    let mut s = Shared::new();
    s.add_cown();
    s.add_cown();
    assert_eq!(s.enter(group(&[0, 1]), job(&hits)), Ok(Some(0)));
    assert_eq!(s.enter(group(&[0]), job(&hits)), Ok(None));
    assert_eq!(s.enter(group(&[1]), job(&hits)), Ok(None));
    assert_eq!(s.enter(group(&[0, 1]), job(&hits)), Ok(None));
    // a behavior that has not run cannot be finished
    assert!(s.finish(0).is_empty());
    assert!(s.finish(1).is_empty());
    s.start(0).unwrap().run();
    // both successors are woken, in the order of the releases
    assert_eq!(s.finish(0), vec![1, 2]);
    assert!(s.finish(0).is_empty());
    s.start(2).unwrap().run();
    // the last behavior still waits for the other resource
    assert_eq!(s.finish(2), Vec::<usize>::new());
    s.start(1).unwrap().run();
    assert_eq!(s.finish(1), vec![3]);
    s.start(3).unwrap().run();
    assert!(s.finish(3).is_empty());
    assert_eq!(hits.load(Ordering::SeqCst), 4);
}

struct Named {
    name: usize,
    log: Arc<std::sync::Mutex<Vec<usize>>>,
}

impl Thunk for Named {
    fn run(self: Box<Self>) {
        self.log.lock().unwrap().push(self.name);
    }
}

#[test]
fn shared_start_hands_out_the_body_that_was_entered() {
    let log = Arc::new(std::sync::Mutex::new(Vec::new()));
    let mut s = Shared::new();
    s.add_cown();
    for name in [10, 20, 30] {
        let body = Job::new(Box::new(Named { name, log: log.clone() }));
        s.enter(group(&[0]), body).unwrap();
    }
    // the bodies come out in the order of the queue, each for its behavior
    for b in 0..3 {
        s.start(b).unwrap().run();
        s.finish(b);
    }
    assert_eq!(*log.lock().unwrap(), vec![10, 20, 30]);
}

#[test]
fn job_runs_the_work_it_was_given() {
    let hits = Arc::new(AtomicUsize::new(0));
    let j = job(&hits);
    assert_eq!(hits.load(Ordering::SeqCst), 0);
    j.run();
    assert_eq!(hits.load(Ordering::SeqCst), 1);
}
