//! References to tasks stored in a [`Selector`](crate::selector::Selector), and tasks
//! removed from it.
use vstd::prelude::*;

use crate::selector::id::Id;

verus! {

/// Immutable reference to a task stored in a [`Selector`](crate::selector::Selector).
pub struct Borrowed<'a, T> {
    /// ID of the task.
    pub id: Id<T>,
    /// The task.
    pub value: &'a T,
}

impl<'a, T> Borrowed<'a, T> {
    /// Returns the ID of the task.
    pub fn id(&self) -> (r: &Id<T>)
        ensures
            *r == self.id,
    {
        &self.id
    }

    /// Returns a reference to the task.
    pub fn get_pin(&self) -> (r: &T)
        ensures
            *r == *self.value,
    {
        self.value
    }

    /// Consumes this wrapper, returning the reference to the task.
    pub fn into_pin(self) -> (r: &'a T)
        ensures
            *r == *self.value,
    {
        self.value
    }
}

/// Mutable reference to a task stored in a [`Selector`](crate::selector::Selector).
pub struct BorrowedMut<'a, T> {
    /// ID of the task.
    pub id: Id<T>,
    /// The task.
    pub value: &'a mut T,
}

impl<'a, T> BorrowedMut<'a, T> {
    /// Returns the ID of the task.
    pub fn id(&self) -> (r: &Id<T>)
        ensures
            *r == self.id,
    {
        &self.id
    }

    /// Returns a reference to the task.
    pub fn get_pin(&self) -> (r: &T)
        ensures
            *r == *old(self.value),
    {
        &*self.value
    }

    /// Consumes this wrapper, returning a reference to the task.
    pub fn into_pin(self) -> (r: &'a T)
        ensures
            *r == *old(self.value),
    {
        self.value
    }

    /// Returns a mutable reference to the task.
    pub fn get_pin_mut(&mut self) -> (r: &mut T)
        ensures
            *r == *old(self).value,
            *final(self).value == *final(r),
            final(self).id == old(self).id,
    {
        &mut *self.value
    }

    /// Consumes this wrapper, returning a mutable reference to the task.
    pub fn into_pin_mut(self) -> (r: &'a mut T)
        ensures
            *r == *old(self.value),
            *final(r) == *final(self.value),
    {
        self.value
    }
}

/// Task removed from a [`Selector`](crate::selector::Selector).
pub struct Removed<T> {
    /// ID the task had in the selector.
    pub id: Id<T>,
    /// The task.
    pub value: T,
}

impl<T> Removed<T> {
    /// Returns the ID the task had in the selector.
    pub fn id(&self) -> (r: &Id<T>)
        ensures
            *r == self.id,
    {
        &self.id
    }

    /// Returns a reference to the task.
    pub fn get_pin(&self) -> (r: &T)
        ensures
            *r == self.value,
    {
        &self.value
    }

    /// Returns a mutable reference to the task.
    pub fn get_pin_mut(&mut self) -> (r: &mut T)
        ensures
            *r == old(self).value,
            final(self).value == *final(r),
            final(self).id == old(self).id,
    {
        &mut self.value
    }

    /// Consumes this wrapper, returning the task.
    pub fn into_inner(self) -> (r: T)
        ensures
            r == self.value,
    {
        self.value
    }
}

} // verus!
