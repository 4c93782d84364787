//! What the selector does with the outcome of polling a task.
//!
//! A task reports its progress as a [`ControlFlow`](std::ops::ControlFlow):
//! `Continue` when it produced a value and can be polled again, `Break` when it
//! produced its last value. A strategy turns such a value into the selector's output.
pub mod strategy;
