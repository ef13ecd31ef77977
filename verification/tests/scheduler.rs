use boc::{sort_requests, Action, Behavior, Request, Scheduler, Stage, SubmitError};

fn group(targets: &[usize]) -> Vec<Request> {
    targets.iter().map(|t| Request::new(*t)).collect()
}

fn scheduler_with(cowns: usize) -> Scheduler {
    let mut s = Scheduler::new();
    for _ in 0..cowns {
        s.add_cown();
    }
    s
}

fn targets(requests: &[Request]) -> Vec<usize> {
    requests.iter().map(|r| r.target).collect()
}

/// Steps `b` until it is blocked or has nothing more to do before its body.
fn run_body(s: &mut Scheduler, b: usize) {
    assert_eq!(s.stage(b), Some(Stage::Spawned));
    assert_eq!(s.step(b), Action::Advanced);
    assert_eq!(s.stage(b), Some(Stage::Running));
    assert_eq!(s.step(b), Action::Advanced);
}

#[test]
fn request_new_is_fresh() {
    let r = Request::new(7);
    assert_eq!(r.target, 7);
    assert_eq!(r.next, None);
    assert!(!r.scheduled);
}

#[test]
fn request_order_is_the_order_of_targets() {
    let a = Request::new(1);
    let b = Request::new(2);
    let c = Request::new(2);
    assert!(a < b);
    assert!(!(b < a));
    assert!(b > a);
    assert!(!(b < c));
    assert!(b <= c && b >= c);
    assert!(b == c);
    assert!(a != b);
    assert_eq!(a.partial_cmp(&b), Some(std::cmp::Ordering::Less));
    assert_eq!(b.partial_cmp(&c), Some(std::cmp::Ordering::Equal));
    assert_eq!(b.partial_cmp(&a), Some(std::cmp::Ordering::Greater));
    // the state of a request does not count
    let mut d = Request::new(2);
    d.scheduled = true;
    d.next = Some(3);
    assert!(b == d);
}

#[test]
fn sort_requests_orders_by_target() {
    let sorted = sort_requests(group(&[3, 0, 2, 1]));
    assert_eq!(targets(&sorted), vec![0, 1, 2, 3]);
    let sorted = sort_requests(group(&[]));
    assert_eq!(targets(&sorted), Vec::<usize>::new());
    let sorted = sort_requests(group(&[5, 5, 1]));
    assert_eq!(targets(&sorted), vec![1, 5, 5]);
}

#[test]
fn sort_requests_keeps_equal_requests_in_order() {
    let mut first = Request::new(4);
    first.scheduled = true;
    let second = Request::new(4);
    let sorted = sort_requests(vec![first, Request::new(9), second, Request::new(0)]);
    assert_eq!(targets(&sorted), vec![0, 4, 4, 9]);
    assert!(sorted[1].scheduled);
    assert!(!sorted[2].scheduled);
}

#[test]
fn behavior_new_sorts_and_counts() {
    let b = Behavior::new(group(&[7, 3, 5])).unwrap();
    assert_eq!(b.targets(), vec![3, 5, 7]);
    assert_eq!(b.count(), 4);
    let b = Behavior::new(group(&[])).unwrap();
    assert_eq!(b.targets(), Vec::<usize>::new());
    assert_eq!(b.count(), 1);
}

#[test]
fn behavior_new_refuses_duplicates() {
    assert!(Behavior::new(group(&[1, 2, 3])).is_ok());
    assert!(Behavior::new(group(&[])).is_ok());
    assert_eq!(Behavior::new(group(&[2, 1, 2])).err(), Some(SubmitError::DuplicateResource));
}

#[test]
fn new_scheduler_is_empty() {
    let s = Scheduler::new();
    assert_eq!(s.cowns(), 0);
    assert_eq!(s.behaviors(), 0);
    assert_eq!(s.stage(0), None);
    assert_eq!(s.pending(0), None);
    assert_eq!(s.last(0), None);
    assert!(s.requests(0).is_empty());
}

#[test]
fn cowns_are_numbered_in_order() {
    let mut s = Scheduler::new();
    assert_eq!(s.add_cown(), 0);
    assert_eq!(s.add_cown(), 1);
    assert_eq!(s.add_cown(), 2);
    assert_eq!(s.cowns(), 3);
    assert_eq!(s.last(2), None);
}

#[test]
fn submit_sorts_and_counts_one_more_than_the_requests() {
    let mut s = scheduler_with(3);
    let b = s.submit(group(&[2, 0, 1])).unwrap();
    assert_eq!(b, 0);
    assert_eq!(s.behaviors(), 1);
    assert_eq!(targets(&s.requests(b)), vec![0, 1, 2]);
    assert_eq!(s.pending(b), Some(4));
    assert_eq!(s.stage(b), Some(Stage::Enqueue { at: 0 }));
    for r in s.requests(b) {
        assert_eq!(r.next, None);
        assert!(!r.scheduled);
    }
}

#[test]
fn submit_resets_what_the_requests_carry() {
    let mut s = scheduler_with(1);
    let mut r = Request::new(0);
    r.next = Some(17);
    r.scheduled = true;
    let b = s.submit(vec![r]).unwrap();
    let kept = s.requests(b);
    assert_eq!(kept[0].next, None);
    assert!(!kept[0].scheduled);
}

#[test]
fn submit_refuses_a_duplicate_resource() {
    let mut s = scheduler_with(3);
    assert_eq!(s.submit(group(&[1, 0, 1])), Err(SubmitError::DuplicateResource));
    assert_eq!(s.behaviors(), 0);
}

#[test]
fn submit_refuses_an_unknown_resource() {
    let mut s = scheduler_with(2);
    assert_eq!(s.submit(group(&[0, 2])), Err(SubmitError::UnknownResource));
    assert_eq!(s.submit(group(&[5])), Err(SubmitError::UnknownResource));
    assert_eq!(s.behaviors(), 0);
}

#[test]
fn submit_names_the_duplicate_before_the_unknown() {
    let mut s = scheduler_with(1);
    assert_eq!(s.submit(group(&[3, 3])), Err(SubmitError::DuplicateResource));
}

#[test]
fn empty_group_runs_at_once() {
    let mut s = Scheduler::new();
    let b = s.submit(group(&[])).unwrap();
    assert_eq!(s.pending(b), Some(1));
    assert_eq!(s.stage(b), Some(Stage::Resolve));
    assert_eq!(s.step(b), Action::Spawn(b));
    assert_eq!(s.pending(b), Some(0));
    assert_eq!(s.stage(b), Some(Stage::Spawned));
    assert_eq!(s.step(b), Action::Advanced);
    assert_eq!(s.stage(b), Some(Stage::Running));
    assert_eq!(s.step(b), Action::Advanced);
    assert_eq!(s.stage(b), Some(Stage::Done));
    assert_eq!(s.step(b), Action::Blocked);
}

#[test]
fn one_behavior_step_by_step() {
    let mut s = scheduler_with(2);
    let b = s.submit(group(&[1, 0])).unwrap();
    assert_eq!(s.pending(b), Some(3));

    // first phase: both requests are granted at once
    assert_eq!(s.step(b), Action::Advanced);
    assert_eq!(s.stage(b), Some(Stage::Enqueue { at: 1 }));
    assert_eq!(s.last(0), Some((b, 0)));
    assert_eq!(s.pending(b), Some(2));
    assert_eq!(s.step(b), Action::Advanced);
    assert_eq!(s.stage(b), Some(Stage::Finish { at: 0 }));
    assert_eq!(s.last(1), Some((b, 1)));
    assert_eq!(s.pending(b), Some(1));

    // second phase
    assert_eq!(s.step(b), Action::Advanced);
    assert_eq!(s.stage(b), Some(Stage::Finish { at: 1 }));
    assert!(s.requests(b)[0].scheduled);
    assert!(!s.requests(b)[1].scheduled);
    assert_eq!(s.step(b), Action::Advanced);
    assert_eq!(s.stage(b), Some(Stage::Resolve));
    assert!(s.requests(b)[1].scheduled);

    // the reserved unit is the last one
    assert_eq!(s.step(b), Action::Spawn(b));
    assert_eq!(s.pending(b), Some(0));
    assert_eq!(s.stage(b), Some(Stage::Spawned));

    // body
    assert_eq!(s.step(b), Action::Advanced);
    assert_eq!(s.stage(b), Some(Stage::Running));
    assert_eq!(s.step(b), Action::Advanced);
    assert_eq!(s.stage(b), Some(Stage::Release { at: 0 }));

    // releases empty the queues
    assert_eq!(s.step(b), Action::Advanced);
    assert_eq!(s.last(0), None);
    assert_eq!(s.stage(b), Some(Stage::Release { at: 1 }));
    assert_eq!(s.step(b), Action::Advanced);
    assert_eq!(s.last(1), None);
    assert_eq!(s.stage(b), Some(Stage::Done));
    assert_eq!(s.step(b), Action::Blocked);
}

#[test]
fn step_of_an_unknown_behavior_changes_nothing() {
    let mut s = scheduler_with(1);
    assert_eq!(s.step(3), Action::Blocked);
    assert_eq!(s.schedule(3), Action::Blocked);
    assert!(s.complete(3).is_empty());
    assert_eq!(s.behaviors(), 0);
}

#[test]
fn schedule_takes_a_behavior_through_both_phases() {
    let mut s = scheduler_with(3);
    let b = s.submit(group(&[0, 1, 2])).unwrap();
    assert_eq!(s.schedule(b), Action::Spawn(b));
    assert_eq!(s.stage(b), Some(Stage::Spawned));
    assert_eq!(s.pending(b), Some(0));
    for r in s.requests(b) {
        assert!(r.scheduled);
        assert_eq!(r.next, None);
    }
    // nothing is left to enqueue
    assert_eq!(s.schedule(b), Action::Blocked);
    assert_eq!(s.stage(b), Some(Stage::Spawned));
}

#[test]
fn second_behavior_waits_for_the_first() {
    let mut s = scheduler_with(1);
    let b1 = s.submit(group(&[0])).unwrap();
    let b2 = s.submit(group(&[0])).unwrap();
    assert_eq!(s.schedule(b1), Action::Spawn(b1));
    assert_eq!(s.schedule(b2), Action::Advanced);
    assert_eq!(s.stage(b2), Some(Stage::Waiting));
    assert_eq!(s.pending(b2), Some(1));
    assert_eq!(s.requests(b1)[0].next, Some(b2));
    assert_eq!(s.last(0), Some((b2, 0)));
    // a waiting behavior cannot move by itself
    assert_eq!(s.step(b2), Action::Blocked);

    run_body(&mut s, b1);
    assert_eq!(s.stage(b2), Some(Stage::Waiting));
    assert_eq!(s.complete(b1), vec![b2]);
    assert_eq!(s.stage(b1), Some(Stage::Done));
    assert_eq!(s.stage(b2), Some(Stage::Spawned));
    assert_eq!(s.pending(b2), Some(0));
    // the queue is not empty: the second request is its tail
    assert_eq!(s.last(0), Some((b2, 0)));

    run_body(&mut s, b2);
    assert_eq!(s.complete(b2), Vec::<usize>::new());
    assert_eq!(s.last(0), None);
}

#[test]
fn enqueue_behind_an_unfinished_predecessor_waits_for_its_flag() {
    let mut s = scheduler_with(2);
    let b1 = s.submit(group(&[0, 1])).unwrap();
    let b2 = s.submit(group(&[0, 1])).unwrap();
    // b1 swaps into resource 0, b2 swaps in behind it
    assert_eq!(s.step(b1), Action::Advanced);
    assert_eq!(s.step(b2), Action::Advanced);
    assert_eq!(s.stage(b2), Some(Stage::Link { at: 0, behavior: b1, index: 0 }));
    // b1 has not finished enqueueing: b2 spins
    assert_eq!(s.step(b2), Action::Blocked);
    assert_eq!(s.schedule(b2), Action::Blocked);
    assert_eq!(s.stage(b2), Some(Stage::Link { at: 0, behavior: b1, index: 0 }));
    // so b2 cannot get to resource 1 before b1
    assert_eq!(s.step(b1), Action::Advanced);
    assert_eq!(s.last(1), Some((b1, 1)));
    assert_eq!(s.step(b2), Action::Blocked);
    // b1 sets the flag of its first request
    assert_eq!(s.step(b1), Action::Advanced);
    assert!(s.requests(b1)[0].scheduled);
    assert_eq!(s.step(b2), Action::Advanced);
    assert_eq!(s.requests(b1)[0].next, Some(b2));
    assert_eq!(s.stage(b2), Some(Stage::Enqueue { at: 1 }));
    // behind the second request, whose flag is not yet set
    assert_eq!(s.step(b2), Action::Advanced);
    assert_eq!(s.stage(b2), Some(Stage::Link { at: 1, behavior: b1, index: 1 }));
    assert_eq!(s.step(b2), Action::Blocked);
    assert_eq!(s.schedule(b1), Action::Spawn(b1));
    assert_eq!(s.schedule(b2), Action::Advanced);
    assert_eq!(s.pending(b2), Some(2));

    run_body(&mut s, b1);
    // the first release leaves b2 with one request to wait for
    assert_eq!(s.step(b1), Action::Advanced);
    assert_eq!(s.pending(b2), Some(1));
    assert_eq!(s.stage(b2), Some(Stage::Waiting));
    assert_eq!(s.step(b1), Action::Spawn(b2));
    assert_eq!(s.stage(b1), Some(Stage::Done));
    assert_eq!(s.stage(b2), Some(Stage::Spawned));
}

#[test]
fn release_waits_for_a_successor_that_is_not_yet_known() {
    let mut s = scheduler_with(1);
    let b1 = s.submit(group(&[0])).unwrap();
    let b2 = s.submit(group(&[0])).unwrap();
    assert_eq!(s.schedule(b1), Action::Spawn(b1));
    run_body(&mut s, b1);
    assert_eq!(s.stage(b1), Some(Stage::Release { at: 0 }));
    // b2 swaps itself in, but has not told b1
    assert_eq!(s.step(b2), Action::Advanced);
    assert_eq!(s.last(0), Some((b2, 0)));
    assert_eq!(s.requests(b1)[0].next, None);
    // b1 is no longer the tail and knows no successor: it has to wait
    assert_eq!(s.step(b1), Action::Blocked);
    assert!(s.complete(b1).is_empty());
    assert_eq!(s.stage(b1), Some(Stage::Release { at: 0 }));
    // b2 makes itself known
    assert_eq!(s.step(b2), Action::Advanced);
    assert_eq!(s.requests(b1)[0].next, Some(b2));
    // b2 still holds its reserved unit: the release does not start it
    assert_eq!(s.step(b1), Action::Advanced);
    assert_eq!(s.stage(b1), Some(Stage::Done));
    assert_eq!(s.pending(b2), Some(1));
    assert_eq!(s.schedule(b2), Action::Spawn(b2));
}

#[test]
fn a_grant_during_enqueueing_does_not_start_the_body() {
    let mut s = scheduler_with(2);
    let b1 = s.submit(group(&[0])).unwrap();
    let b2 = s.submit(group(&[0, 1])).unwrap();
    assert_eq!(s.schedule(b1), Action::Spawn(b1));
    // b2 enqueues behind b1 on resource 0 and is granted resource 1
    assert_eq!(s.step(b2), Action::Advanced);
    assert_eq!(s.step(b2), Action::Advanced);
    assert_eq!(s.step(b2), Action::Advanced);
    assert_eq!(s.stage(b2), Some(Stage::Finish { at: 0 }));
    assert_eq!(s.pending(b2), Some(2));
    // b1 runs and hands resource 0 over while b2 is still in its second phase
    run_body(&mut s, b1);
    assert_eq!(s.step(b1), Action::Advanced);
    assert_eq!(s.pending(b2), Some(1));
    assert_eq!(s.stage(b2), Some(Stage::Finish { at: 0 }));
    // only the final decrement of b2 starts its body
    assert_eq!(s.step(b2), Action::Advanced);
    assert_eq!(s.step(b2), Action::Advanced);
    assert_eq!(s.step(b2), Action::Spawn(b2));
}

#[test]
fn two_counters_two_behaviors() {
    // two counters and two behaviors that increment both; a third behavior
    // over the same counters sees both increments of both
    let mut s = scheduler_with(2);
    let mut c = [0, 0];
    let a = s.submit(group(&[0, 1])).unwrap();
    let b = s.submit(group(&[0, 1])).unwrap();
    let third = s.submit(group(&[0, 1])).unwrap();
    assert_eq!(s.schedule(a), Action::Spawn(a));
    assert_eq!(s.schedule(b), Action::Advanced);
    assert_eq!(s.schedule(third), Action::Advanced);

    assert_eq!(s.step(a), Action::Advanced);
    c[0] += 1;
    // while a runs, b cannot start
    assert_eq!(s.step(b), Action::Blocked);
    assert_eq!(s.stage(b), Some(Stage::Waiting));
    c[1] += 1;
    assert_eq!(s.step(a), Action::Advanced);
    assert_eq!(s.complete(a), vec![b]);

    assert_eq!(s.step(b), Action::Advanced);
    assert_eq!(c, [1, 1]);
    c[0] += 1;
    c[1] += 1;
    assert_eq!(s.step(b), Action::Advanced);
    assert_eq!(s.complete(b), vec![third]);

    assert_eq!(s.step(third), Action::Advanced);
    assert_eq!(c, [2, 2]);
    assert_eq!(s.step(third), Action::Advanced);
    assert_eq!(s.complete(third), Vec::<usize>::new());
    assert_eq!(s.stage(third), Some(Stage::Done));
}

#[test]
fn reverse_order_of_resources_does_not_deadlock() {
    // a asks for {0, 1}, b for {1, 0}; their swaps are interleaved
    let mut s = scheduler_with(2);
    let a = s.submit(group(&[0, 1])).unwrap();
    let b = s.submit(group(&[1, 0])).unwrap();
    assert_eq!(targets(&s.requests(b)), vec![0, 1]);
    assert_eq!(s.step(a), Action::Advanced);
    assert_eq!(s.step(b), Action::Advanced);
    assert_eq!(s.step(b), Action::Blocked);
    assert_eq!(s.schedule(a), Action::Spawn(a));
    assert_eq!(s.schedule(b), Action::Advanced);
    run_body(&mut s, a);
    // a nested behavior over resource 1 queues behind b
    let nested = s.submit(group(&[1])).unwrap();
    assert_eq!(s.schedule(nested), Action::Advanced);
    assert_eq!(s.complete(a), vec![b]);
    run_body(&mut s, b);
    assert_eq!(s.complete(b), vec![nested]);
    run_body(&mut s, nested);
    assert_eq!(s.complete(nested), Vec::<usize>::new());
    for x in [a, b, nested] {
        assert_eq!(s.stage(x), Some(Stage::Done));
    }
}

#[test]
fn every_interleaving_choice_ends_with_all_done() {
    // behaviors over subsets of four resources, stepped in an order drawn
    // from a fixed sequence of pseudo-random numbers
    let groups: [&[usize]; 8] =
        [&[0, 1], &[1, 0], &[2, 3, 0], &[3], &[1, 2], &[], &[3, 2, 1, 0], &[0]];
    for seed in 1..40u64 {
        let mut s = scheduler_with(4);
        let ids: Vec<usize> = groups.iter().map(|g| s.submit(group(g)).unwrap()).collect();
        let mut runs = vec![0; ids.len()];
        let mut holder: [Option<usize>; 4] = [None; 4];
        let mut x = seed;
        let mut steps = 0;
        let mut idle = 0;
        while ids.iter().any(|b| s.stage(*b) != Some(Stage::Done)) {
            x = x.wrapping_mul(6364136223846793005).wrapping_add(1442695040888963407);
            let b = ids[((x >> 33) % ids.len() as u64) as usize];
            let before = s.stage(b);
            let action = s.step(b);
            if action == Action::Blocked {
                idle += 1;
                assert!(idle < 100_000, "no behavior can move");
                continue;
            }
            steps += 1;
            match (before, s.stage(b)) {
                (Some(Stage::Spawned), Some(Stage::Running)) => {
                    runs[b] += 1;
                    for r in s.requests(b) {
                        assert_eq!(holder[r.target], None);
                        holder[r.target] = Some(b);
                    }
                }
                (Some(Stage::Running), _) => {
                    for r in s.requests(b) {
                        assert_eq!(holder[r.target], Some(b));
                        holder[r.target] = None;
                    }
                }
                _ => {}
            }
        }
        assert!(runs.iter().all(|r| *r == 1));
        // no run takes more steps than the weights of the behaviors allow
        let bound: usize = groups.iter().map(|g| 4 * g.len() + 4).sum();
        assert!(steps <= bound);
        for c in 0..4 {
            assert_eq!(s.last(c), None);
        }
    }
}

#[test]
fn first_in_first_out_on_one_resource() {
    let mut s = scheduler_with(1);
    let ids: Vec<usize> = (0..5).map(|_| s.submit(group(&[0])).unwrap()).collect();
    // the swaps happen in the order 3, 1, 4, 0, 2
    let order = [3, 1, 4, 0, 2];
    for b in order {
        s.schedule(ids[b]);
    }
    let mut ran = Vec::new();
    let mut next = vec![ids[order[0]]];
    while let Some(b) = next.pop() {
        run_body(&mut s, b);
        ran.push(b);
        next.extend(s.complete(b));
    }
    assert_eq!(ran, order.iter().map(|b| ids[*b]).collect::<Vec<_>>());
}
