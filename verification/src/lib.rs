//! Selector over a dynamic set of asynchronous tasks (generalized futures and streams).
//!
//! The selector keeps its tasks in an arena-backed circular list, addressed by IDs
//! that are never reused, and the wakeups it received in a FIFO queue in which a
//! task appears at most once. Polling goes in rounds: a round serves the wakeups
//! queued when it began, oldest first, so ready tasks are served round-robin and
//! each at most once per round. The strategies in [`task::strategy`] say how the
//! outcome of polling a future or a stream becomes the selector's output.
pub mod list;
pub mod queue;
pub mod selector;
pub mod task;

use vstd::prelude::*;

pub use crate::selector::Selector;

verus! {

/// [`Selector`] using [`task::strategy::FutureBasic`].
pub type FutureSelector<F> = Selector<F, task::strategy::FutureBasic>;

/// [`Selector`] using [`task::strategy::FutureReclaim`].
pub type FutureReclaimSelector<F> = Selector<F, task::strategy::FutureReclaim>;

/// [`Selector`] using [`task::strategy::StreamBasic`].
pub type StreamSelector<S> = Selector<S, task::strategy::StreamBasic>;

/// [`Selector`] using [`task::strategy::StreamWithId`].
pub type StreamWithIdSelector<S> = Selector<S, task::strategy::StreamWithId>;

/// [`Selector`] using [`task::strategy::StreamReclaim`].
pub type StreamReclaimSelector<S> = Selector<S, task::strategy::StreamReclaim>;

/// [`Selector`] using [`task::strategy::TryStreamBasic`].
pub type TryStreamSelector<S> = Selector<S, task::strategy::TryStreamBasic>;

/// [`Selector`] using [`task::strategy::TryStreamWithId`].
pub type TryStreamWithIdSelector<S> = Selector<S, task::strategy::TryStreamWithId>;

/// [`Selector`] using [`task::strategy::TryStreamReclaim`].
pub type TryStreamReclaimSelector<S> = Selector<S, task::strategy::TryStreamReclaim>;

} // verus!
