//! Strategies for tasks that are futures, streams or fallible streams.
//!
//! Each strategy is a unit type. Its functions say how the outcome of one poll
//! becomes progress ([`future_progress`], [`stream_progress`], [`try_stream_progress`])
//! and how progress becomes output (`transform_cont` for a value of a task that
//! goes on, `transform_break` for the last value of a finished task).
use vstd::prelude::*;

use std::convert::Infallible;
use std::ops::ControlFlow;

use crate::selector::{BorrowedMut, Id, Removed};

verus! {

/// A future that is ready has finished: its output is its last value.
pub fn future_progress<O>(output: O) -> (r: ControlFlow<O, Infallible>)
    ensures
        r == ControlFlow::<O, Infallible>::Break(output),
{
    ControlFlow::Break(output)
}

/// A stream that yields an item goes on; a stream that yields nothing has finished.
pub fn stream_progress<I>(item: Option<I>) -> (r: ControlFlow<(), I>)
    ensures
        item matches Some(i) ==> r == ControlFlow::<(), I>::Continue(i),
        item is None ==> r == ControlFlow::<(), I>::Break(()),
{
    match item {
        Some(i) => ControlFlow::Continue(i),
        None => ControlFlow::Break(()),
    }
}

/// A fallible stream goes on after an item and finishes after its first error or
/// when it yields nothing.
pub fn try_stream_progress<O, E>(item: Option<Result<O, E>>) -> (r: ControlFlow<Result<(), E>, O>)
    ensures
        item matches Some(Ok(o)) ==> r == ControlFlow::<Result<(), E>, O>::Continue(o),
        item matches Some(Err(e)) ==> r == ControlFlow::<Result<(), E>, O>::Break(Err(e)),
        item is None ==> r == ControlFlow::<Result<(), E>, O>::Break(Ok(())),
{
    match item {
        Some(Ok(o)) => ControlFlow::Continue(o),
        Some(Err(e)) => ControlFlow::Break(Err(e)),
        None => ControlFlow::Break(Ok(())),
    }
}

/// Yield future's output; the finished future is dropped.
#[derive(Debug, Clone, Copy, Default)]
pub struct FutureBasic;

impl FutureBasic {
    /// The output of a finished future is yielded as is.
    pub fn transform_break<O>(value: O) -> (r: Option<O>)
        ensures
            r == Some(value),
    {
        Some(value)
    }
}

/// Yield future's output and the future itself.
#[derive(Debug, Clone, Copy, Default)]
pub struct FutureReclaim;

impl FutureReclaim {
    /// The finished future is yielded together with its output.
    pub fn transform_break<F, O>(task: Removed<F>, value: O) -> (r: Option<(Removed<F>, O)>)
        ensures
            r == Some((task, value)),
    {
        Some((task, value))
    }
}

/// Yield stream's items; the exhausted stream is dropped.
#[derive(Debug, Clone, Copy, Default)]
pub struct StreamBasic;

impl StreamBasic {
    /// Each item is yielded as is.
    pub fn transform_cont<I>(value: I) -> (r: Option<I>)
        ensures
            r == Some(value),
    {
        Some(value)
    }

    /// An exhausted stream yields nothing.
    pub fn transform_break<I>(value: ()) -> (r: Option<I>)
        ensures
            r is None,
    {
        None
    }
}

/// Yield stream's items, each with the ID of its stream; the exhausted stream is dropped.
#[derive(Debug, Clone, Copy, Default)]
pub struct StreamWithId;

impl StreamWithId {
    /// Each item is yielded with the ID of its stream.
    pub fn transform_cont<S, I>(task: BorrowedMut<'_, S>, value: I) -> (r: Option<(Id<S>, I)>)
        ensures
            r matches Some(p) && p.0.spec_owner() == task.id.spec_owner() && p.0.spec_node()
                == task.id.spec_node() && p.1 == value,
    {
        Some((task.id().clone(), value))
    }

    /// An exhausted stream yields nothing.
    pub fn transform_break<S, I>(task: Removed<S>, value: ()) -> (r: Option<(Id<S>, I)>)
        ensures
            r is None,
    {
        None
    }
}

/// Yield stream's items, each with the ID of its stream, and then the exhausted stream.
#[derive(Debug, Clone, Copy, Default)]
pub struct StreamReclaim;

impl StreamReclaim {
    /// Each item is yielded with the ID of its stream.
    pub fn transform_cont<S, I>(task: BorrowedMut<'_, S>, value: I) -> (r: Option<
        ControlFlow<Removed<S>, (Id<S>, I)>,
    >)
        ensures
            r matches Some(ControlFlow::Continue(p)) && p.0.spec_owner() == task.id.spec_owner()
                && p.0.spec_node() == task.id.spec_node() && p.1 == value,
    {
        Some(ControlFlow::Continue((task.id().clone(), value)))
    }

    /// The exhausted stream is yielded.
    pub fn transform_break<S, I>(task: Removed<S>, value: ()) -> (r: Option<
        ControlFlow<Removed<S>, (Id<S>, I)>,
    >)
        ensures
            r == Some(ControlFlow::<Removed<S>, (Id<S>, I)>::Break(task)),
    {
        Some(ControlFlow::Break(task))
    }
}

/// Yield fallible stream's items and its first error; the finished stream is dropped.
#[derive(Debug, Clone, Copy, Default)]
pub struct TryStreamBasic;

impl TryStreamBasic {
    /// Each item is yielded as `Ok`.
    pub fn transform_cont<O, E>(value: O) -> (r: Option<Result<O, E>>)
        ensures
            r == Some(Ok::<O, E>(value)),
    {
        Some(Ok(value))
    }

    /// The error that ended the stream is yielded; a stream that ended without one
    /// yields nothing.
    pub fn transform_break<O, E>(value: Result<(), E>) -> (r: Option<Result<O, E>>)
        ensures
            value is Ok ==> r is None,
            value matches Err(e) ==> r == Some(Err::<O, E>(e)),
    {
        match value {
            Ok(()) => None,
            Err(e) => Some(Err(e)),
        }
    }
}

/// Yield fallible stream's items and its first error, each with the ID of its
/// stream; the finished stream is dropped.
#[derive(Debug, Clone, Copy, Default)]
pub struct TryStreamWithId;

impl TryStreamWithId {
    /// Each item is yielded as `Ok`, with the ID of its stream.
    pub fn transform_cont<S, O, E>(task: BorrowedMut<'_, S>, value: O) -> (r: Option<
        (Id<S>, Result<O, E>),
    >)
        ensures
            r matches Some(p) && p.0.spec_owner() == task.id.spec_owner() && p.0.spec_node()
                == task.id.spec_node() && p.1 == Ok::<O, E>(value),
    {
        Some((task.id().clone(), Ok(value)))
    }

    /// The error that ended the stream is yielded with the ID of its stream; a stream
    /// that ended without one yields nothing.
    pub fn transform_break<S, O, E>(task: Removed<S>, value: Result<(), E>) -> (r: Option<
        (Id<S>, Result<O, E>),
    >)
        ensures
            value is Ok ==> r is None,
            value matches Err(e) ==> (r matches Some(p) && p.0.spec_owner() == task.id.spec_owner()
                && p.0.spec_node() == task.id.spec_node() && p.1 == Err::<O, E>(e)),
    {
        match value {
            Ok(()) => None,
            Err(e) => Some((task.id().clone(), Err(e))),
        }
    }
}

/// Yield fallible stream's items, each with the ID of its stream, and then the
/// finished stream with the way it ended.
#[derive(Debug, Clone, Copy, Default)]
pub struct TryStreamReclaim;

impl TryStreamReclaim {
    /// Each item is yielded with the ID of its stream.
    pub fn transform_cont<S, O, E>(task: BorrowedMut<'_, S>, value: O) -> (r: Option<
        ControlFlow<(Removed<S>, Result<(), E>), (Id<S>, O)>,
    >)
        ensures
            r matches Some(ControlFlow::Continue(p)) && p.0.spec_owner() == task.id.spec_owner()
                && p.0.spec_node() == task.id.spec_node() && p.1 == value,
    {
        Some(ControlFlow::Continue((task.id().clone(), value)))
    }

    /// The finished stream is yielded with the way it ended.
    pub fn transform_break<S, O, E>(task: Removed<S>, value: Result<(), E>) -> (r: Option<
        ControlFlow<(Removed<S>, Result<(), E>), (Id<S>, O)>,
    >)
        ensures
            r == Some(ControlFlow::<(Removed<S>, Result<(), E>), (Id<S>, O)>::Break((task, value))),
    {
        Some(ControlFlow::Break((task, value)))
    }
}

} // verus!
