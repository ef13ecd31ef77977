use boc::runtime::{Job, Shared, Thunk};
use boc::{run_when, CownPtr, CownPtrs, Runtime, SubmitError};

struct Print;

impl Thunk for Print {
    fn run(self: Box<Self>) {
        println!("1");
    }
}

#[test]
fn boc() {
    let rt = Runtime::new();
    let c1 = CownPtr::new(&rt, 0);
    let c2 = CownPtr::new(&rt, 0);
    let c3 = CownPtr::new(&rt, false);
    let c2_ = c2.clone();
    let c3_ = c3.clone();

    let (finish_sender, finish_receiver) = crossbeam_channel::bounded(0);

    let inner = rt.clone();
    run_when(&rt, (c1.clone(), (c2.clone(), ())), move |(g1, (g2, ()))| {
        *g1 += 1;
        *g2 += 1;
        run_when(&inner, (c3.clone(), (c2.clone(), ())), move |(g3, (g2, ()))| {
            *g2 += 1;
            *g3 = true;
        })
        .unwrap();
    })
    .unwrap();

    run_when(
        &rt,
        (c1.clone(), (c2_.clone(), (c3_.clone(), ()))),
        move |(g1, (g2, (g3, ())))| {
            assert_eq!(*g1, 1);
            assert_eq!(*g2, if *g3 { 2 } else { 1 });
            finish_sender.send(()).unwrap();
        },
    )
    .unwrap();

    // wait for termination
    finish_receiver.recv().unwrap();
}

#[test]
fn boc_vec() {
    let rt = Runtime::new();
    let c1 = CownPtr::new(&rt, 0);
    let c2 = CownPtr::new(&rt, 0);
    let c3 = CownPtr::new(&rt, false);
    let c2_ = c2.clone();
    let c3_ = c3.clone();

    let (finish_sender, finish_receiver) = crossbeam_channel::bounded(0);

    let inner = rt.clone();
    run_when(&rt, vec![c1.clone(), c2.clone()], move |mut x| {
        *x[0] += 1;
        *x[1] += 1;
        run_when(&inner, (c3.clone(), (c2.clone(), ())), move |(g3, (g2, ()))| {
            *g2 += 1;
            *g3 = true;
        })
        .unwrap();
    })
    .unwrap();

    run_when(
        &rt,
        (c1.clone(), (c2_.clone(), (c3_.clone(), ()))),
        move |(g1, (g2, (g3, ())))| {
            assert_eq!(*g1, 1);
            assert_eq!(*g2, if *g3 { 2 } else { 1 });
            finish_sender.send(()).unwrap();
        },
    )
    .unwrap();

    // wait for termination
    finish_receiver.recv().unwrap();
}

#[test]
fn boc_thunk_move_all() {
    let rt = Runtime::new();
    let c1 = CownPtr::new(&rt, 0);

    let mut b = Box::new(Shared::new());
    b.add_cown();
    b.enter((c1, ()).requests(), Job::new(Box::new(Print))).unwrap();
    rayon::spawn(move || {
        b.start(0).unwrap().run();
    });
}

#[test]
fn boc_thunk_move_thunk() {
    let rt = Runtime::new();
    let c1 = CownPtr::new(&rt, 0);

    let mut b = Box::new(Shared::new());
    b.add_cown();
    b.enter((c1, ()).requests(), Job::new(Box::new(Print))).unwrap();
    let thunk = b.start(0).unwrap();
    rayon::spawn(move || {
        thunk.run();
    });
}

#[test]
fn boc_one() {
    let rt = Runtime::new();
    let c1 = CownPtr::new(&rt, 0);
    let c2 = CownPtr::new(&rt, 1);
    run_when(&rt, (c1, (c2, ())), move |(g1, (g2, ()))| {
        println!("{}", *g1);
        println!("{}", *g2);
    })
    .unwrap();
}

#[test]
fn boc_simple() {
    let rt = Runtime::new();
    let c1 = CownPtr::new(&rt, 0);
    let c2 = CownPtr::new(&rt, 0);
    let c3 = CownPtr::new(&rt, false);

    let inner = rt.clone();
    run_when(&rt, (c1.clone(), (c2.clone(), ())), move |(g1, (g2, ()))| {
        *g1 += 1;
        *g2 += 1;
        run_when(&inner, (c3.clone(), (c2.clone(), ())), move |(g3, (g2, ()))| {
            *g2 += 1;
            *g3 = true;
        })
        .unwrap();
    })
    .unwrap();
}

#[test]
fn boc_channel() {
    let rt = Runtime::new();
    let c1 = CownPtr::new(&rt, 1);
    let c2 = CownPtr::new(&rt, 2);
    let c3 = CownPtr::new(&rt, true);
    let c2_ = c2.clone();
    let c3_ = c3.clone();

    let (finish_sender, finish_receiver) = crossbeam_channel::bounded(0);

    run_when(
        &rt,
        (c1.clone(), (c2_.clone(), (c3_.clone(), ()))),
        move |(g1, (g2, (g3, ())))| {
            assert_eq!(*g1, 1);
            assert_eq!(*g2, if *g3 { 2 } else { 1 });
            finish_sender.send(()).unwrap();
        },
    )
    .unwrap();

    // wait for termination
    finish_receiver.recv().unwrap();
}

#[test]
fn boc_two_when_one_cown() {
    let rt = Runtime::new();
    let c1 = CownPtr::new(&rt, 1);
    run_when(&rt, (c1.clone(), ()), move |(g1, ())| {
        *g1 += 1;
        println!("{}", *g1);
    })
    .unwrap();

    run_when(&rt, (c1.clone(), ()), move |(g1, ())| {
        *g1 += 1;
        println!("{}", *g1);
    })
    .unwrap();
}

#[test]
fn boc_two_when_overlap_cown() {
    let rt = Runtime::new();
    let c1 = CownPtr::new(&rt, 1);
    let c2 = CownPtr::new(&rt, 2);
    let c3 = CownPtr::new(&rt, 3);
    run_when(&rt, (c1.clone(), (c2.clone(), ())), move |(g1, (g2, ()))| {
        *g1 += 1;
        *g2 += 1;
        println!("{}", *g2);
        assert_eq!(*g1 + 1, *g2);
    })
    .unwrap();

    run_when(&rt, (c2.clone(), (c3.clone(), ())), move |(g2, (g3, ()))| {
        println!("{}", *g2);
        assert_eq!(*g2, *g3);
    })
    .unwrap();
}

#[test]
fn behaviors_on_one_counter_do_not_overlap() {
    // each behavior reads the counter, lets other threads run, and writes
    // the value it read plus one: overlapping bodies would lose updates
    let rt = Runtime::new();
    let counter = CownPtr::new(&rt, 0u64);
    let busy = std::sync::Arc::new(std::sync::atomic::AtomicBool::new(false));
    let total = 200;
    for _ in 0..total {
        let busy = busy.clone();
        run_when(&rt, (counter.clone(), ()), move |(n, ())| {
            assert!(!busy.swap(true, std::sync::atomic::Ordering::SeqCst));
            let seen = *n;
            for _ in 0..200 {
                std::hint::spin_loop();
            }
            *n = seen + 1;
            assert!(busy.swap(false, std::sync::atomic::Ordering::SeqCst));
        })
        .unwrap();
    }
    let (done, wait) = crossbeam_channel::bounded(0);
    run_when(&rt, (counter.clone(), ()), move |(n, ())| {
        done.send(*n).unwrap();
    })
    .unwrap();
    assert_eq!(wait.recv().unwrap(), total);
}

#[test]
fn two_counters_are_incremented_together() {
    let rt = Runtime::new();
    let c1 = CownPtr::new(&rt, 0);
    let c2 = CownPtr::new(&rt, 0);
    for _ in 0..2 {
        run_when(&rt, (c1.clone(), (c2.clone(), ())), move |(g1, (g2, ()))| {
            // no behavior sees the increment of one counter without the other
            assert_eq!(*g1, *g2);
            *g1 += 1;
            for _ in 0..200 {
                std::hint::spin_loop();
            }
            *g2 += 1;
        })
        .unwrap();
    }
    let (done, wait) = crossbeam_channel::bounded(0);
    run_when(&rt, (c1.clone(), (c2.clone(), ())), move |(g1, (g2, ()))| {
        done.send((*g1, *g2)).unwrap();
    })
    .unwrap();
    assert_eq!(wait.recv().unwrap(), (2, 2));
}

#[test]
fn nested_and_reversed_groups_see_a_serial_order() {
    let rt = Runtime::new();
    for _ in 0..50 {
        let c1 = CownPtr::new(&rt, 0);
        let c2 = CownPtr::new(&rt, 0);
        let (done, wait) = crossbeam_channel::bounded(2);

        let inner = rt.clone();
        let again = c2.clone();
        let nested_done = done.clone();
        run_when(&rt, (c1.clone(), (c2.clone(), ())), move |(g1, (g2, ()))| {
            *g1 += 1;
            *g2 += 1;
            let nested_done = nested_done.clone();
            run_when(&inner, (again.clone(), ()), move |(g2, ())| {
                *g2 += 10;
                nested_done.send(*g2).unwrap();
            })
            .unwrap();
        })
        .unwrap();

        // the same resources, named in the reverse order
        run_when(&rt, (c2.clone(), (c1.clone(), ())), move |(g2, (g1, ()))| {
            // before the first behavior, right after it, or after its child
            assert!((*g1, *g2) == (0, 0) || (*g1, *g2) == (1, 1) || (*g1, *g2) == (1, 11));
            done.send(*g1).unwrap();
        })
        .unwrap();

        let mut got = vec![wait.recv().unwrap(), wait.recv().unwrap()];
        got.sort();
        assert!(got == vec![0, 11] || got == vec![1, 11]);
    }
}

#[test]
fn behaviors_on_one_resource_run_in_the_order_of_submission() {
    let rt = Runtime::new();
    let log = CownPtr::new(&rt, Vec::<usize>::new());
    for i in 0..100 {
        run_when(&rt, (log.clone(), ()), move |(log, ())| {
            log.push(i);
        })
        .unwrap();
    }
    let (done, wait) = crossbeam_channel::bounded(0);
    run_when(&rt, (log.clone(), ()), move |(log, ())| {
        done.send(log.clone()).unwrap();
    })
    .unwrap();
    assert_eq!(wait.recv().unwrap(), (0..100).collect::<Vec<_>>());
}

#[test]
fn every_behavior_runs_once() {
    let rt = Runtime::new();
    let cowns: Vec<CownPtr<u32>> = (0..4).map(|_| CownPtr::new(&rt, 0)).collect();
    let runs = std::sync::Arc::new(std::sync::atomic::AtomicUsize::new(0));
    let (done, wait) = crossbeam_channel::unbounded();
    let total = 64;
    for i in 0..total {
        // every subset of the four resources, in an order that depends on `i`
        let mut group: Vec<CownPtr<u32>> =
            (0..4).filter(|c| (i >> c) & 1 == 1).map(|c| cowns[c].clone()).collect();
        if i % 3 == 0 {
            group.reverse();
        }
        let runs = runs.clone();
        let done = done.clone();
        run_when(&rt, group, move |mut refs| {
            for r in refs.iter_mut() {
                **r += 1;
            }
            runs.fetch_add(1, std::sync::atomic::Ordering::SeqCst);
            done.send(i).unwrap();
        })
        .unwrap();
    }
    let mut seen: Vec<usize> = (0..total).map(|_| wait.recv().unwrap()).collect();
    seen.sort();
    assert_eq!(seen, (0..total).collect::<Vec<_>>());
    assert_eq!(runs.load(std::sync::atomic::Ordering::SeqCst), total);

    // each resource was incremented by the behaviors that asked for it
    let (sum, wait) = crossbeam_channel::bounded(0);
    run_when(&rt, cowns.clone(), move |refs| {
        sum.send(refs.iter().map(|r| **r).collect::<Vec<u32>>()).unwrap();
    })
    .unwrap();
    assert_eq!(wait.recv().unwrap(), vec![32, 32, 32, 32]);
}

#[test]
fn empty_group_is_run() {
    let rt = Runtime::new();
    let (done, wait) = crossbeam_channel::bounded(0);
    run_when(&rt, (), move |()| {
        done.send(7).unwrap();
    })
    .unwrap();
    assert_eq!(wait.recv().unwrap(), 7);
}

#[test]
fn run_when_refuses_one_resource_twice() {
    let rt = Runtime::new();
    let c1 = CownPtr::new(&rt, 0);
    let c2 = CownPtr::new(&rt, 0);
    let r = run_when(&rt, (c1.clone(), (c2.clone(), (c1.clone(), ()))), move |(_a, (_b, (_c, ())))| {
        unreachable!();
    });
    assert_eq!(r, Err(SubmitError::DuplicateResource));
    let r = run_when(&rt, vec![c2.clone(), c2.clone()], move |_refs| {
        unreachable!();
    });
    assert_eq!(r, Err(SubmitError::DuplicateResource));
    // the refused groups left nothing behind
    let (done, wait) = crossbeam_channel::bounded(0);
    run_when(&rt, (c1, (c2, ())), move |(a, (b, ()))| {
        done.send(*a + *b).unwrap();
    })
    .unwrap();
    assert_eq!(wait.recv().unwrap(), 0);
}

#[test]
fn run_when_refuses_a_resource_of_another_runtime() {
    let rt = Runtime::new();
    let other = Runtime::new();
    let _first = CownPtr::new(&other, 0);
    let second = CownPtr::new(&other, 0);
    let r = run_when(&rt, (second, ()), move |(_g, ())| {
        unreachable!();
    });
    assert_eq!(r, Err(SubmitError::ForeignResource));
}

#[test]
fn run_when_refuses_a_foreign_resource_whose_number_it_knows() {
    let rt = Runtime::new();
    let other = Runtime::new();
    let own = CownPtr::new(&rt, 1);
    let own2 = CownPtr::new(&rt, 2);
    let foreign = CownPtr::new(&other, 3);
    // `foreign` has the number of `own`
    let r = run_when(&rt, (foreign.clone(), ()), move |(_g, ())| {
        unreachable!();
    });
    assert_eq!(r, Err(SubmitError::ForeignResource));
    let r = run_when(&rt, (own2.clone(), (foreign.clone(), ())), move |(_a, (_b, ()))| {
        unreachable!();
    });
    assert_eq!(r, Err(SubmitError::ForeignResource));
    let r = run_when(&rt, vec![own2.clone(), foreign.clone()], move |_refs| {
        unreachable!();
    });
    assert_eq!(r, Err(SubmitError::ForeignResource));
    // a duplicate is named first
    let r = run_when(&rt, vec![own.clone(), foreign.clone()], move |_refs| {
        unreachable!();
    });
    assert_eq!(r, Err(SubmitError::DuplicateResource));
    // a copy of the runtime's handle is the same runtime
    let copy = rt.clone();
    let (done, wait) = crossbeam_channel::bounded(0);
    run_when(&copy, (own.clone(), (own2, ())), move |(a, (b, ()))| {
        done.send(*a + *b).unwrap();
    })
    .unwrap();
    assert_eq!(wait.recv().unwrap(), 3);
    // and the other runtime takes its own handle
    let (done, wait) = crossbeam_channel::bounded(0);
    run_when(&other, (foreign, ()), move |(g, ())| {
        done.send(*g).unwrap();
    })
    .unwrap();
    assert_eq!(wait.recv().unwrap(), 3);
}

#[test]
fn two_behaviors_observe_both_counters_together() {
    // each of two behaviors reads both counters on entry and then
    // increments both: one sees (0, 0), the other (1, 1)
    let rt = Runtime::new();
    for _ in 0..100 {
        let c1 = CownPtr::new(&rt, 0);
        let c2 = CownPtr::new(&rt, 0);
        let (seen, wait) = crossbeam_channel::unbounded();
        for _ in 0..2 {
            let seen = seen.clone();
            run_when(&rt, (c1.clone(), (c2.clone(), ())), move |(g1, (g2, ()))| {
                seen.send((*g1, *g2)).unwrap();
                *g1 += 1;
                for _ in 0..200 {
                    std::hint::spin_loop();
                }
                *g2 += 1;
            })
            .unwrap();
        }
        let mut got = vec![wait.recv().unwrap(), wait.recv().unwrap()];
        got.sort();
        assert_eq!(got, vec![(0, 0), (1, 1)]);
    }
}

#[test]
fn reversed_group_sees_both_increments_or_none() {
    // A increments both counters and then submits a behavior on the second
    // that writes nothing; B asks for the counters in the reverse order and
    // sees them equal: both 0 before A, both 1 after
    let rt = Runtime::new();
    for _ in 0..100 {
        let c1 = CownPtr::new(&rt, 0);
        let c2 = CownPtr::new(&rt, 0);
        let (seen, wait) = crossbeam_channel::unbounded();

        let inner = rt.clone();
        let again = c2.clone();
        run_when(&rt, (c1.clone(), (c2.clone(), ())), move |(g1, (g2, ()))| {
            *g1 += 1;
            for _ in 0..200 {
                std::hint::spin_loop();
            }
            *g2 += 1;
            run_when(&inner, (again.clone(), ()), move |(g2, ())| {
                assert!(*g2 == 1);
            })
            .unwrap();
        })
        .unwrap();

        run_when(&rt, (c2.clone(), (c1.clone(), ())), move |(g2, (g1, ()))| {
            seen.send((*g1, *g2)).unwrap();
        })
        .unwrap();

        let got = wait.recv().unwrap();
        assert!(got == (0, 0) || got == (1, 1));
    }
}

#[test]
fn requests_of_a_group() {
    let rt = Runtime::new();
    let c1 = CownPtr::new(&rt, 'a');
    let c2 = CownPtr::new(&rt, 1.5f64);
    let c3 = CownPtr::new(&rt, String::new());
    assert!(().requests().is_empty());
    // a pair list yields the request of its head last
    let rs = (c1.clone(), (c2.clone(), (c3.clone(), ()))).requests();
    assert_eq!(rs.iter().map(|r| r.target).collect::<Vec<_>>(), vec![2, 1, 0]);
    assert!(rs.iter().all(|r| r.next.is_none() && !r.scheduled));
    // a list yields them in its own order
    let c4 = CownPtr::new(&rt, 'b');
    let rs = vec![c4, c1.clone(), c1].requests();
    assert_eq!(rs.iter().map(|r| r.target).collect::<Vec<_>>(), vec![3, 0, 0]);
}
