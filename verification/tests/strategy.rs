use std::ops::ControlFlow;

use async_selector::task::strategy::{
    future_progress, stream_progress, try_stream_progress, FutureBasic, FutureReclaim,
    StreamBasic, StreamReclaim, StreamWithId, TryStreamBasic, TryStreamReclaim, TryStreamWithId,
};
use async_selector::FutureSelector;

#[test]
fn progress_of_futures_and_streams() {
    assert!(matches!(future_progress(3), ControlFlow::Break(3)));
    assert!(matches!(stream_progress(Some(4)), ControlFlow::Continue(4)));
    assert!(matches!(stream_progress::<u8>(None), ControlFlow::Break(())));
    assert!(matches!(try_stream_progress::<u8, &str>(Some(Ok(1))), ControlFlow::Continue(1)));
    assert!(matches!(try_stream_progress::<u8, &str>(Some(Err("e"))), ControlFlow::Break(Err("e"))));
    assert!(matches!(try_stream_progress::<u8, &str>(None), ControlFlow::Break(Ok(()))));
}

#[test]
fn basic_strategies_transform_values() {
    assert_eq!(FutureBasic::transform_break(9), Some(9));
    assert_eq!(StreamBasic::transform_cont(2), Some(2));
    assert_eq!(StreamBasic::transform_break::<u8>(()), None);
    assert_eq!(TryStreamBasic::transform_cont::<u8, &str>(5), Some(Ok(5)));
    assert_eq!(TryStreamBasic::transform_break::<u8, &str>(Ok(())), None);
    assert_eq!(TryStreamBasic::transform_break::<u8, &str>(Err("bad")), Some(Err("bad")));
}

#[test]
fn id_strategies_attach_the_task_id() {
    let mut selector: FutureSelector<u8> = FutureSelector::default();
    let id = selector.push(1).id().clone();
    let other = selector.push(2).id().clone();

    let (got, value) = StreamWithId::transform_cont(selector.get_mut(&id).unwrap(), 'x').unwrap();
    assert!(got == id && got != other);
    assert_eq!(value, 'x');

    match StreamReclaim::transform_cont(selector.get_mut(&other).unwrap(), 'y') {
        Some(ControlFlow::Continue((got, value))) => {
            assert!(got == other);
            assert_eq!(value, 'y');
        },
        _ => panic!("expected an item"),
    }

    let (got, value) = TryStreamWithId::transform_cont::<u8, u8, &str>(selector.get_mut(&id).unwrap(), 3).unwrap();
    assert!(got == id);
    assert_eq!(value, Ok(3));

    match TryStreamReclaim::transform_cont::<u8, u8, &str>(selector.get_mut(&id).unwrap(), 4) {
        Some(ControlFlow::Continue((got, value))) => {
            assert!(got == id);
            assert_eq!(value, 4);
        },
        _ => panic!("expected an item"),
    }

    let removed = selector.remove(&id).unwrap();
    assert!(TryStreamWithId::transform_break::<u8, u8, &str>(removed, Ok(())).is_none());
    let removed = selector.remove(&other).unwrap();
    match TryStreamWithId::transform_break::<u8, u8, &str>(removed, Err("boom")) {
        Some((got, Err(e))) => {
            assert!(got == other);
            assert_eq!(e, "boom");
        },
        _ => panic!("expected the error"),
    }
}

#[test]
fn reclaim_strategies_return_the_task() {
    let mut selector: FutureSelector<u8> = FutureSelector::default();
    let id = selector.push(1).id().clone();
    let removed = selector.remove(&id).unwrap();
    let (task, out) = FutureReclaim::transform_break(removed, "done").unwrap();
    assert!(*task.id() == id);
    assert_eq!(task.into_inner(), 1);
    assert_eq!(out, "done");

    let id = selector.push(2).id().clone();
    let removed = selector.remove(&id).unwrap();
    match StreamReclaim::transform_break::<u8, char>(removed, ()) {
        Some(ControlFlow::Break(task)) => assert_eq!(task.into_inner(), 2),
        _ => panic!("expected the stream"),
    }

    let id = selector.push(3).id().clone();
    let removed = selector.remove(&id).unwrap();
    match TryStreamReclaim::transform_break::<u8, u8, &str>(removed, Err("e")) {
        Some(ControlFlow::Break((task, Err(e)))) => {
            assert!(*task.id() == id);
            assert_eq!(e, "e");
        },
        _ => panic!("expected the stream"),
    }
    let id = selector.push(4).id().clone();
    let removed = selector.remove(&id).unwrap();
    assert!(StreamWithId::transform_break::<u8, char>(removed, ()).is_none());
}
