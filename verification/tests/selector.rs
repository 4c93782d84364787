use std::ops::ControlFlow;

use async_selector::selector::{Outcome, PollStep, Removed, Selector};
use async_selector::task::strategy::{stream_progress, StreamBasic};
use async_selector::{FutureSelector, StreamSelector};

fn drain<T, S>(selector: Selector<T, S>) -> Vec<T> {
    let mut it = selector.into_iter();
    let mut out = Vec::new();
    while let Some(removed) = it.next() {
        out.push(removed.into_inner());
    }
    out
}

fn collect_selector(values: std::ops::RangeInclusive<i32>) -> FutureSelector<i32> {
    let mut selector = FutureSelector::default();
    for v in values {
        selector.push(v);
    }
    selector
}

#[test]
fn retain_removes_correct_tasks() {
    let mut selector = collect_selector(-3..=3);
    selector.retain(|task: &i32| task.is_positive());
    let retained = drain(selector);
    assert_eq!(retained, &[1, 2, 3]);
}

#[test]
fn extract_if_removes_correct_tasks() {
    let mut selector = collect_selector(-3..=3);
    let mut iter = selector.extract_if(|task: &i32| task.is_positive());
    let mut extracted = Vec::new();
    while let Some(removed) = iter.next() {
        extracted.push(removed.into_inner());
    }
    assert_eq!(extracted, vec![1, 2, 3]);
    let retained = drain(selector);
    assert_eq!(retained, &[-3, -2, -1, 0]);
}

#[test]
fn extract_if_retains_tasks_when_dropped() {
    let mut selector = collect_selector(-3..=3);
    let mut iter = selector.extract_if(|task: &i32| task.is_positive());
    let first = iter.next().map(Removed::into_inner);
    assert_eq!(first, Some(1));
    drop(iter);
    let retained = drain(selector);
    assert_eq!(retained, &[-3, -2, -1, 0, 2, 3]);
}

/// Outcome of one call of [`poll_next`].
#[derive(Debug, PartialEq)]
enum Out<O> {
    Ready(Option<O>),
    Pending,
}

/// Drives one polling round the way an executor-facing wrapper does: `poll` is the
/// task's own polling, and `self_wake` says whether the task wakes itself while polled.
fn poll_next<T, S, O>(
    selector: &mut Selector<T, S>,
    mut poll: impl FnMut(&mut T) -> (Option<ControlFlow<O, O>>, bool),
    transform_cont: impl Fn(O) -> Option<O>,
    transform_break: impl Fn(O) -> Option<O>,
) -> Out<O> {
    let mut round = selector.begin_round();
    loop {
        match selector.next_step(&mut round) {
            PollStep::Exhausted => return Out::Ready(None),
            PollStep::Pending => return Out::Pending,
            PollStep::Poll(id) => {
                let (progress, self_wake) = poll(selector.get_mut(&id).unwrap().into_pin_mut());
                if self_wake {
                    selector.wake(&id);
                }
                let outcome = match &progress {
                    None => Outcome::Waiting,
                    Some(ControlFlow::Continue(_)) => Outcome::Progressed,
                    Some(ControlFlow::Break(_)) => Outcome::Finished,
                };
                let removed = selector.report(&id, outcome);
                match progress {
                    None => assert!(removed.is_none()),
                    Some(ControlFlow::Continue(value)) => {
                        assert!(removed.is_none());
                        if let Some(out) = transform_cont(value) {
                            return Out::Ready(Some(out));
                        }
                    },
                    Some(ControlFlow::Break(value)) => {
                        assert!(removed.is_some());
                        if let Some(out) = transform_break(value) {
                            return Out::Ready(Some(out));
                        }
                    },
                }
            },
        }
    }
}

#[test]
fn single_selector_poll_polls_each_task_at_most_once() {
    #[derive(Clone)]
    struct Task(usize);

    let mut selector: Selector<Task, ()> = Selector::new(());
    for _ in 0..3 {
        selector.push(Task(0));
    }
    for i in 0..=3 {
        let mut iter = selector.iter();
        while let Some(borrowed) = iter.next() {
            assert_eq!(borrowed.get_pin().0, i);
        }
        let out = poll_next(
            &mut selector,
            |task: &mut Task| {
                task.0 += 1;
                (None::<ControlFlow<(), ()>>, true)
            },
            |v| Some(v),
            |v| Some(v),
        );
        assert!(out == Out::Pending);
    }
}

#[test]
fn selector_respects_strategy_and_round_robin_order() {
    #[derive(Clone)]
    struct MyTask(usize);

    let mut selector: Selector<MyTask, ()> = Selector::new(());
    for _ in 0..3 {
        selector.push(MyTask(0));
    }
    let mut results = Vec::new();
    loop {
        let out = poll_next(
            &mut selector,
            |task: &mut MyTask| {
                task.0 += 1;
                if task.0 > 5 {
                    (Some(ControlFlow::Break(task.0)), false)
                } else {
                    (Some(ControlFlow::Continue(task.0)), false)
                }
            },
            |value: usize| value.is_power_of_two().then_some(value),
            |value: usize| Some(value * 2),
        );
        match out {
            Out::Ready(Some(v)) => results.push(v),
            Out::Ready(None) => break,
            // tasks that made progress were queued again, which wakes the consumer
            Out::Pending => assert!(selector.has_queued_wakeups()),
        }
    }
    assert_eq!(results, vec![1, 1, 1, 2, 2, 2, 4, 4, 4, 12, 12, 12]);
}

#[test]
fn selector_returns_valid_ids() {
    /// A stream that yields its value forever.
    struct Repeat(i32);

    let mut selector: StreamSelector<Repeat> = StreamSelector::default();
    let id_0 = selector.push(Repeat(0)).id().clone();
    let id_1 = selector.push(Repeat(1)).id().clone();
    assert!(selector.contains(&id_0));
    assert!(selector.contains(&id_1));
    assert!(id_0 != id_1);
    assert!(id_0 == id_0.clone());

    let mut next = |selector: &mut StreamSelector<Repeat>| {
        poll_next(
            selector,
            |task: &mut Repeat| {
                let progress = match stream_progress(Some(task.0)) {
                    ControlFlow::Continue(v) => ControlFlow::Continue(v),
                    ControlFlow::Break(()) => ControlFlow::Break(0),
                };
                (Some(progress), false)
            },
            |v| StreamBasic::transform_cont(v),
            |_| StreamBasic::transform_break(()),
        )
    };
    assert!(next(&mut selector) == Out::Ready(Some(0)));
    assert!(next(&mut selector) == Out::Ready(Some(1)));
    assert!(next(&mut selector) == Out::Ready(Some(0)));
    assert!(next(&mut selector) == Out::Ready(Some(1)));
    selector.remove(&id_0);
    assert!(!selector.contains(&id_0));
    assert!(selector.get(&id_0).is_none());
    assert!(next(&mut selector) == Out::Ready(Some(1)));
    assert!(next(&mut selector) == Out::Ready(Some(1)));
}

#[test]
fn ids_of_another_selector_are_not_found() {
    let mut a: FutureSelector<u8> = FutureSelector::default();
    let mut b: FutureSelector<u8> = FutureSelector::default();
    let id_a = a.push(1).id().clone();
    let id_b = b.push(2).id().clone();
    assert_eq!(id_a.node(), id_b.node());
    assert!(id_a != id_b);
    assert!(!a.contains(&id_b));
    assert!(a.get(&id_b).is_none());
    assert!(b.remove(&id_a).is_none());
    assert_eq!(*a.get(&id_a).unwrap().get_pin(), 1);
    assert_eq!(b.len(), 1);
}

#[test]
fn wake_queues_each_task_once_and_skips_removed_tasks() {
    let mut selector: FutureSelector<u8> = FutureSelector::default();
    let ids = (0..3).map(|i| selector.push(i).id().clone()).collect::<Vec<_>>();
    // the pushes queued one wakeup each; more wakeups change nothing
    selector.wake(&ids[1]);
    selector.wake_all();
    selector.remove(&ids[0]);
    let mut round = selector.begin_round();
    let mut served = Vec::new();
    loop {
        match selector.next_step(&mut round) {
            PollStep::Poll(id) => served.push(id),
            PollStep::Pending => break,
            PollStep::Exhausted => panic!("tasks remain"),
        }
    }
    assert!(round.is_done());
    assert_eq!(served.len(), 2);
    assert!(served[0] == ids[1]);
    assert!(served[1] == ids[2]);
    // nothing woke them since: the next round finds nothing
    let mut round = selector.begin_round();
    assert!(matches!(selector.next_step(&mut round), PollStep::Pending));
    // wake_all queues the stored tasks in insertion order
    selector.wake_all();
    let mut round = selector.begin_round();
    assert!(matches!(selector.next_step(&mut round), PollStep::Poll(id) if id == ids[1]));
    assert!(matches!(selector.next_step(&mut round), PollStep::Poll(id) if id == ids[2]));
    assert!(matches!(selector.next_step(&mut round), PollStep::Pending));
}

#[test]
fn empty_selector_is_exhausted() {
    let mut selector: FutureSelector<u8> = FutureSelector::default();
    let mut round = selector.begin_round();
    assert!(matches!(selector.next_step(&mut round), PollStep::Exhausted));
    let id = selector.push(5).id().clone();
    let removed = selector.remove(&id).unwrap();
    assert_eq!(removed.into_inner(), 5);
    // the wakeup of the removed task is skipped, and the selector is empty
    let mut round = selector.begin_round();
    assert!(matches!(selector.next_step(&mut round), PollStep::Exhausted));
    assert!(selector.is_empty());
}

#[test]
fn iterators_visit_in_insertion_order() {
    let mut selector = collect_selector(1..=4);
    let mut iter = selector.iter();
    assert_eq!(iter.len(), 4);
    assert_eq!(*iter.next_back().unwrap().get_pin(), 4);
    assert_eq!(*iter.next().unwrap().get_pin(), 1);
    assert_eq!(iter.len(), 2);
    let mut iter = selector.iter_mut();
    while let Some(mut task) = iter.next() {
        *task.get_pin_mut() *= 10;
    }
    let mut iter = selector.into_iter();
    assert_eq!(iter.next_back().unwrap().into_inner(), 40);
    assert_eq!(iter.len(), 3);
    let rest = std::iter::from_fn(|| iter.next().map(Removed::into_inner)).collect::<Vec<_>>();
    assert_eq!(rest, vec![10, 20, 30]);
}

#[test]
fn strategy_and_extend() {
    let mut selector: Selector<u8, u32> = Selector::new(7);
    assert_eq!(*selector.strategy(), 7);
    *selector.strategy_mut() += 1;
    selector.extend(vec![3, 4, 5]);
    let selector = selector.with_strategy("other");
    assert_eq!(*selector.strategy(), "other");
    assert_eq!(selector.len(), 3);
    assert_eq!(drain(selector), vec![3, 4, 5]);
}

#[test]
fn report_applies_each_outcome() {
    let mut selector: Selector<u32, ()> = Selector::new(());
    let a = selector.push(10).id.clone();
    let b = selector.push(20).id.clone();
    let mut round = selector.begin_round();
    let first = match selector.next_step(&mut round) {
        PollStep::Poll(id) => id,
        _ => panic!("a task is queued"),
    };
    assert!(first == a);
    // waiting: nothing changes
    assert!(selector.report(&a, Outcome::Waiting).is_none());
    assert_eq!(selector.len(), 2);
    // progress: the task is queued again, behind `b`
    assert!(selector.report(&a, Outcome::Progressed).is_none());
    // a second report of progress does not queue it twice
    assert!(selector.report(&a, Outcome::Progressed).is_none());
    let second = match selector.next_step(&mut round) {
        PollStep::Poll(id) => id,
        _ => panic!("`b` is queued"),
    };
    assert!(second == b);
    assert!(round.is_done());
    // finished: the task is taken out and handed back
    let removed = selector.report(&b, Outcome::Finished).unwrap();
    assert!(removed.id == b);
    assert_eq!(removed.into_inner(), 20);
    assert!(!selector.contains(&b));
    assert!(selector.report(&b, Outcome::Finished).is_none());
    let mut round = selector.begin_round();
    match selector.next_step(&mut round) {
        PollStep::Poll(id) => assert!(id == a),
        _ => panic!("`a` was queued again"),
    }
    assert!(round.is_done());
    assert!(selector.report(&a, Outcome::Finished).is_some());
    let mut round = selector.begin_round();
    assert!(matches!(selector.next_step(&mut round), PollStep::Exhausted));
}

#[test]
fn ids_hash_by_identity() {
    let mut selector: Selector<u32, ()> = Selector::new(());
    let a = selector.push(1).id.clone();
    let b = selector.push(1).id.clone();
    let mut set = std::collections::HashSet::new();
    assert!(set.insert(a.clone()));
    assert!(set.insert(b.clone()));
    assert!(!set.insert(a.clone()));
    assert!(set.contains(&b));
    assert_eq!(set.len(), 2);
}
