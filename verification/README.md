# async_selector

A selector over a dynamic set of asynchronous tasks (futures, streams, fallible
streams), with its data structures and polling decisions (which task to poll
next, when a round ends, and what happens to a task after it was polled)
verified in Verus. Polling the tasks themselves, wakers and panic handling are
left to `app/`.

Layout:

- `src/list.rs`, `src/list/cursor.rs`: arena-backed circular doubly-linked list
  with never-reused node references, and double-ended cursors over it.
- `src/queue.rs`: FIFO queue of wakeups with a snapshot marker.
- `src/selector.rs` and `src/selector/`: the selector (tasks, wakeups, IDs,
  polling rounds and the outcome of each poll, iteration, retain/extract) and
  the laws it obeys.
- `src/task/strategy.rs`: how the outcome of polling a future or a stream becomes
  the selector's output.
- `app/`: the asynchronous front end (wakers, the `Stream` implementation, the
  `Task` trait and its implementations for futures and streams).
