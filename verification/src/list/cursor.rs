//! Double-ended cursors over a [`List`].
//!
//! A cursor visits a window of the list, which starts as the whole list. Taking an
//! element from the front or the back shrinks the window from that end.
use vstd::prelude::*;

use crate::list::{List, NodeRef, Removed};

verus! {

/// Reference to a value stored in a [`List`], together with its [`NodeRef`].
pub struct BorrowedNode<'a, T> {
    pub(crate) node: NodeRef,
    pub(crate) value: &'a T,
}

impl<'a, T> BorrowedNode<'a, T> {
    pub closed spec fn spec_node(&self) -> NodeRef {
        self.node
    }

    pub closed spec fn spec_value(&self) -> T {
        *self.value
    }

    /// Reference of the node in the list.
    pub fn node(&self) -> (r: NodeRef)
        ensures
            r == self.spec_node(),
    {
        self.node
    }

    /// The stored value.
    pub fn get_protected(&self) -> (r: &T)
        ensures
            *r == self.spec_value(),
    {
        self.value
    }

    /// Consumes the wrapper, returning the reference to the stored value.
    pub fn into_ref(self) -> (r: &'a T)
        ensures
            *r == self.spec_value(),
    {
        self.value
    }
}

/// Mutable reference to a value stored in a [`List`], together with its [`NodeRef`].
pub struct BorrowedNodeMut<'a, T> {
    /// Reference of the node in the list.
    pub node: NodeRef,
    /// The stored value.
    pub value: &'a mut T,
}

impl<'a, T> BorrowedNodeMut<'a, T> {
    pub open spec fn spec_node(&self) -> NodeRef {
        self.node
    }

    /// Current value behind the reference.
    pub open spec fn spec_value(&self) -> T {
        *self.value
    }

    /// Reference of the node in the list.
    pub fn node(&self) -> (r: NodeRef)
        ensures
            r == self.spec_node(),
    {
        self.node
    }

    /// The stored value.
    pub fn get_protected(&self) -> (r: &T)
        ensures
            *r == self.spec_value(),
    {
        &*self.value
    }

    /// Mutable access to the stored value.
    pub fn get_protected_mut(&mut self) -> (r: &mut T)
        ensures
            *r == old(self).spec_value(),
            final(self).spec_value() == *final(r),
            final(self).spec_node() == old(self).spec_node(),
            *final(final(self).value) == *final(old(self).value),
    {
        &mut *self.value
    }
}

/// Double-ended cursor that visits the values of a [`List`] in order.
pub struct Cursor<'a, T> {
    pub(crate) list: &'a List<T>,
    pub(crate) front: usize,
    pub(crate) back: usize,
    pub(crate) skipped: usize,
    /// Position of the window's front in the list.
    pub(crate) lo: Ghost<int>,
}

impl<'a, T> Cursor<'a, T> {
    pub closed spec fn list(&self) -> List<T> {
        *self.list
    }

    /// Position of the first value not visited yet.
    pub closed spec fn lo(&self) -> int {
        self.lo@
    }

    /// Position after the last value not visited yet.
    pub closed spec fn hi(&self) -> int {
        self.lo@ + self.list.refs().len() - self.skipped
    }

    /// References not visited yet, in order.
    pub open spec fn remaining_refs(&self) -> Seq<NodeRef> {
        self.list().refs().subrange(self.lo(), self.hi())
    }

    /// Values not visited yet, in order.
    pub open spec fn remaining_values(&self) -> Seq<T> {
        self.list().values().subrange(self.lo(), self.hi())
    }

    pub closed spec fn wf(&self) -> bool {
        let o = self.list.order();
        &&& self.list.wf()
        &&& 0 <= self.lo@
        &&& self.skipped <= o.len()
        &&& self.lo@ <= self.hi() <= o.len()
        &&& self.lo@ < self.hi() ==> self.front == o[self.lo@] && self.back == o[self.hi() - 1]
    }

    /// Cursor over the whole list.
    pub fn new(list: &'a List<T>) -> (c: Self)
        requires
            list.wf(),
        ensures
            c.wf(),
            c.list() == *list,
            c.remaining_refs() == list.refs(),
            c.remaining_values() == list.values(),
    {
        let (front, back) = if list.is_empty() {
            (0, 0)
        } else {
            (list.front_slot(), list.back_slot())
        };
        proof {
            if list.order().len() > 0 {
                list.lemma_ref_index(0);
            } else {
                assert(list.refs().len() == 0);
            }
        }
        let c = Cursor { list, front, back, skipped: 0, lo: Ghost(0) };
        proof {
            if list.order().len() > 0 {
                list.lemma_ref_index(0);
            }
            assert(c.remaining_refs() =~= list.refs());
            assert(c.remaining_values() =~= list.values());
        }
        c
    }

    /// Number of values not visited yet.
    pub fn len(&self) -> (r: usize)
        requires
            self.wf(),
        ensures
            r == self.remaining_refs().len(),
            r == self.remaining_values().len(),
    {
        proof {
            if self.list.order().len() > 0 {
                self.list.lemma_ref_index(0);
            }
        }
        self.list.len() - self.skipped
    }

    /// Whether every value was visited.
    pub fn is_empty(&self) -> (r: bool)
        requires
            self.wf(),
        ensures
            r <==> self.remaining_refs().len() == 0,
    {
        self.len() == 0
    }

    /// Returns the value at the front of the window, and moves the front past it.
    pub fn pop_front(&mut self) -> (res: Option<BorrowedNode<'a, T>>)
        requires
            old(self).wf(),
        ensures
            final(self).wf(),
            final(self).list() == old(self).list(),
            old(self).remaining_refs().len() == 0 ==> res is None && final(self).remaining_refs()
                == old(self).remaining_refs(),
            old(self).remaining_refs().len() > 0 ==> {
                &&& res matches Some(b)
                &&& b.spec_node() == old(self).remaining_refs()[0]
                &&& b.spec_value() == old(self).remaining_values()[0]
                &&& final(self).remaining_refs() == old(self).remaining_refs().drop_first()
                &&& final(self).remaining_values() == old(self).remaining_values().drop_first()
            },
    {
        if self.is_empty() {
            return None;
        }
        let ghost lo = self.lo@;
        let list: &'a List<T> = self.list;
        proof {
            list.lemma_ref_index(lo);
        }
        let node = list.ref_at_slot(self.front, Ghost(lo));
        let value = list.get(node).unwrap();
        self.front = list.next_slot(self.front, Ghost(lo));
        self.skipped = self.skipped + 1;
        self.lo = Ghost(lo + 1);
        proof {
            assert(self.remaining_refs() =~= old(self).remaining_refs().drop_first());
            assert(self.remaining_values() =~= old(self).remaining_values().drop_first());
        }
        Some(BorrowedNode { node, value })
    }

    /// Returns the value at the back of the window, and moves the back before it.
    pub fn pop_back(&mut self) -> (res: Option<BorrowedNode<'a, T>>)
        requires
            old(self).wf(),
        ensures
            final(self).wf(),
            final(self).list() == old(self).list(),
            old(self).remaining_refs().len() == 0 ==> res is None && final(self).remaining_refs()
                == old(self).remaining_refs(),
            old(self).remaining_refs().len() > 0 ==> {
                &&& res matches Some(b)
                &&& b.spec_node() == old(self).remaining_refs().last()
                &&& b.spec_value() == old(self).remaining_values().last()
                &&& final(self).remaining_refs() == old(self).remaining_refs().drop_last()
                &&& final(self).remaining_values() == old(self).remaining_values().drop_last()
            },
    {
        if self.is_empty() {
            return None;
        }
        let ghost hi = self.hi();
        let list: &'a List<T> = self.list;
        proof {
            list.lemma_ref_index(hi - 1);
        }
        let node = list.ref_at_slot(self.back, Ghost(hi - 1));
        let value = list.get(node).unwrap();
        self.back = list.prev_slot(self.back, Ghost(hi - 1));
        self.skipped = self.skipped + 1;
        proof {
            assert(self.remaining_refs() =~= old(self).remaining_refs().drop_last());
            assert(self.remaining_values() =~= old(self).remaining_values().drop_last());
        }
        Some(BorrowedNode { node, value })
    }
}

/// Variant of [`Cursor`] that can modify and remove the values it visits.
///
/// Its fields are public so that contracts can follow the borrowed list; the methods
/// require [`CursorMut::wf`], which ties them together.
pub struct CursorMut<'a, T> {
    /// The list being visited.
    pub list: &'a mut List<T>,
    /// Slot of the window's first value.
    pub front: usize,
    /// Slot of the window's last value.
    pub back: usize,
    /// Number of values that left the window by [`CursorMut::pop_front`] or [`CursorMut::pop_back`].
    pub skipped: usize,
    /// Position of the window's front in the list.
    pub lo: Ghost<int>,
}

impl<'a, T> CursorMut<'a, T> {
    pub open spec fn list(&self) -> List<T> {
        *self.list
    }

    /// Position of the first value not visited yet.
    pub open spec fn lo(&self) -> int {
        self.lo@
    }

    /// Position after the last value not visited yet.
    pub open spec fn hi(&self) -> int {
        self.lo@ + self.list.refs().len() - self.skipped
    }

    /// References not visited yet, in order.
    pub open spec fn remaining_refs(&self) -> Seq<NodeRef> {
        self.list().refs().subrange(self.lo(), self.hi())
    }

    /// Values not visited yet, in order.
    pub open spec fn remaining_values(&self) -> Seq<T> {
        self.list().values().subrange(self.lo(), self.hi())
    }

    pub open spec fn wf(&self) -> bool {
        let o = self.list.order();
        &&& self.list.wf()
        &&& 0 <= self.lo@
        &&& self.skipped <= o.len()
        &&& self.lo@ <= self.hi() <= o.len()
        &&& self.lo@ < self.hi() ==> self.front == o[self.lo@] && self.back == o[self.hi() - 1]
    }

    /// Cursor over the whole list.
    pub fn new(list: &'a mut List<T>) -> (c: Self)
        requires
            old(list).wf(),
        ensures
            c.wf(),
            c.list() == *old(list),
            c.lo() == 0,
            c.remaining_refs() == old(list).refs(),
            c.remaining_values() == old(list).values(),
            *final(c.list) == *final(list),
    {
        let (front, back) = if list.is_empty() {
            (0, 0)
        } else {
            (list.front_slot(), list.back_slot())
        };
        proof {
            if list.order().len() > 0 {
                list.lemma_ref_index(0);
            }
        }
        let c = CursorMut { list, front, back, skipped: 0, lo: Ghost(0) };
        proof {
            assert(c.remaining_refs() =~= c.list().refs());
            assert(c.remaining_values() =~= c.list().values());
        }
        c
    }

    /// Number of values not visited yet.
    pub fn len(&self) -> (r: usize)
        requires
            self.wf(),
        ensures
            r == self.remaining_refs().len(),
            r == self.remaining_values().len(),
    {
        proof {
            if self.list.order().len() > 0 {
                self.list.lemma_ref_index(0);
            }
        }
        self.list.len() - self.skipped
    }

    /// Whether every value was visited.
    pub fn is_empty(&self) -> (r: bool)
        requires
            self.wf(),
        ensures
            r <==> self.remaining_refs().len() == 0,
    {
        self.len() == 0
    }

    /// Returns the value at the front of the window, and moves the front past it.
    pub fn pop_front(&mut self) -> (res: Option<BorrowedNodeMut<'_, T>>)
        requires
            old(self).wf(),
        ensures
            final(self).wf(),
            *final(final(self).list) == *final(old(self).list),
            final(self).list().refs() == old(self).list().refs(),
            final(self).list().flags() == old(self).list().flags(),
            final(self).list().issued() == old(self).list().issued(),
            old(self).remaining_refs().len() == 0 ==> {
                &&& res is None
                &&& final(self).remaining_refs() == old(self).remaining_refs()
                &&& final(self).lo() == old(self).lo()
                &&& final(self).list().values() == old(self).list().values()
            },
            old(self).remaining_refs().len() > 0 ==> {
                &&& res matches Some(b)
                &&& b.node == old(self).remaining_refs()[0]
                &&& *b.value == old(self).remaining_values()[0]
                &&& final(self).lo() == old(self).lo() + 1
                &&& final(self).remaining_refs() == old(self).remaining_refs().drop_first()
                &&& final(self).remaining_values() == old(self).remaining_values().drop_first()
                &&& final(self).list().values() == old(self).list().values().update(
                    old(self).lo(),
                    *final(b.value),
                )
            },
    {
        if self.is_empty() {
            return None;
        }
        let ghost lo = self.lo@;
        proof {
            self.list.lemma_ref_index(lo);
        }
        let node = self.list.ref_at_slot(self.front, Ghost(lo));
        self.front = self.list.next_slot(self.front, Ghost(lo));
        self.skipped = self.skipped + 1;
        self.lo = Ghost(lo + 1);
        proof {
            assert(self.remaining_refs() =~= old(self).remaining_refs().drop_first());
        }
        match self.list.get_mut(node) {
            Some(value) => Some(BorrowedNodeMut { node, value }),
            None => None,
        }
    }

    /// Returns the value at the back of the window, and moves the back before it.
    pub fn pop_back(&mut self) -> (res: Option<BorrowedNodeMut<'_, T>>)
        requires
            old(self).wf(),
        ensures
            final(self).wf(),
            *final(final(self).list) == *final(old(self).list),
            final(self).lo() == old(self).lo(),
            final(self).list().refs() == old(self).list().refs(),
            final(self).list().flags() == old(self).list().flags(),
            final(self).list().issued() == old(self).list().issued(),
            old(self).remaining_refs().len() == 0 ==> {
                &&& res is None
                &&& final(self).remaining_refs() == old(self).remaining_refs()
                &&& final(self).list().values() == old(self).list().values()
            },
            old(self).remaining_refs().len() > 0 ==> {
                &&& res matches Some(b)
                &&& b.node == old(self).remaining_refs().last()
                &&& *b.value == old(self).remaining_values().last()
                &&& final(self).remaining_refs() == old(self).remaining_refs().drop_last()
                &&& final(self).remaining_values() == old(self).remaining_values().drop_last()
                &&& final(self).list().values() == old(self).list().values().update(
                    old(self).hi() - 1,
                    *final(b.value),
                )
            },
    {
        if self.is_empty() {
            return None;
        }
        let ghost hi = self.hi();
        proof {
            self.list.lemma_ref_index(hi - 1);
        }
        let node = self.list.ref_at_slot(self.back, Ghost(hi - 1));
        self.back = self.list.prev_slot(self.back, Ghost(hi - 1));
        self.skipped = self.skipped + 1;
        proof {
            assert(self.remaining_refs() =~= old(self).remaining_refs().drop_last());
        }
        match self.list.get_mut(node) {
            Some(value) => Some(BorrowedNodeMut { node, value }),
            None => None,
        }
    }

    /// Moves the front of the window past its first value, returning that value's reference.
    pub fn skip_front(&mut self) -> (res: Option<NodeRef>)
        requires
            old(self).wf(),
        ensures
            final(self).wf(),
            final(self).list() == old(self).list(),
            *final(final(self).list) == *final(old(self).list),
            old(self).remaining_refs().len() == 0 ==> res is None && final(self).remaining_refs()
                == old(self).remaining_refs() && final(self).lo() == old(self).lo(),
            old(self).remaining_refs().len() > 0 ==> {
                &&& res == Some(old(self).remaining_refs()[0])
                &&& final(self).lo() == old(self).lo() + 1
                &&& final(self).remaining_refs() == old(self).remaining_refs().drop_first()
                &&& final(self).remaining_values() == old(self).remaining_values().drop_first()
            },
    {
        if self.is_empty() {
            return None;
        }
        let ghost lo = self.lo@;
        proof {
            self.list.lemma_ref_index(lo);
        }
        let node = self.list.ref_at_slot(self.front, Ghost(lo));
        self.front = self.list.next_slot(self.front, Ghost(lo));
        self.skipped = self.skipped + 1;
        self.lo = Ghost(lo + 1);
        proof {
            assert(self.remaining_refs() =~= old(self).remaining_refs().drop_first());
            assert(self.remaining_values() =~= old(self).remaining_values().drop_first());
        }
        Some(node)
    }

    /// Moves the back of the window before its last value, returning that value's reference.
    pub fn skip_back(&mut self) -> (res: Option<NodeRef>)
        requires
            old(self).wf(),
        ensures
            final(self).wf(),
            final(self).list() == old(self).list(),
            *final(final(self).list) == *final(old(self).list),
            final(self).lo() == old(self).lo(),
            old(self).remaining_refs().len() == 0 ==> res is None && final(self).remaining_refs()
                == old(self).remaining_refs(),
            old(self).remaining_refs().len() > 0 ==> {
                &&& res == Some(old(self).remaining_refs().last())
                &&& final(self).remaining_refs() == old(self).remaining_refs().drop_last()
                &&& final(self).remaining_values() == old(self).remaining_values().drop_last()
            },
    {
        if self.is_empty() {
            return None;
        }
        let ghost hi = self.hi();
        proof {
            self.list.lemma_ref_index(hi - 1);
        }
        let node = self.list.ref_at_slot(self.back, Ghost(hi - 1));
        self.back = self.list.prev_slot(self.back, Ghost(hi - 1));
        self.skipped = self.skipped + 1;
        proof {
            assert(self.remaining_refs() =~= old(self).remaining_refs().drop_last());
            assert(self.remaining_values() =~= old(self).remaining_values().drop_last());
        }
        Some(node)
    }

    /// The value at the front of the window, if any; the window is unchanged.
    pub fn peek_front_ref(&self) -> (res: Option<BorrowedNode<'_, T>>)
        requires
            self.wf(),
        ensures
            self.remaining_refs().len() == 0 ==> res is None,
            self.remaining_refs().len() > 0 ==> {
                &&& res matches Some(b)
                &&& b.spec_node() == self.remaining_refs()[0]
                &&& b.spec_value() == self.remaining_values()[0]
            },
    {
        if self.is_empty() {
            return None;
        }
        let ghost lo = self.lo@;
        proof {
            self.list.lemma_ref_index(lo);
        }
        let node = self.list.ref_at_slot(self.front, Ghost(lo));
        let value = self.list.get(node).unwrap();
        Some(BorrowedNode { node, value })
    }

    /// The value at the back of the window, if any; the window is unchanged.
    pub fn peek_back_ref(&self) -> (res: Option<BorrowedNode<'_, T>>)
        requires
            self.wf(),
        ensures
            self.remaining_refs().len() == 0 ==> res is None,
            self.remaining_refs().len() > 0 ==> {
                &&& res matches Some(b)
                &&& b.spec_node() == self.remaining_refs().last()
                &&& b.spec_value() == self.remaining_values().last()
            },
    {
        if self.is_empty() {
            return None;
        }
        let ghost hi = self.hi();
        proof {
            self.list.lemma_ref_index(hi - 1);
        }
        let node = self.list.ref_at_slot(self.back, Ghost(hi - 1));
        let value = self.list.get(node).unwrap();
        Some(BorrowedNode { node, value })
    }

    /// Mutable access to the value at the front of the window; the window is unchanged.
    pub fn peek_front(&mut self) -> (res: Option<BorrowedNodeMut<'_, T>>)
        requires
            old(self).wf(),
        ensures
            final(self).wf(),
            *final(final(self).list) == *final(old(self).list),
            final(self).lo() == old(self).lo(),
            final(self).list().refs() == old(self).list().refs(),
            final(self).list().flags() == old(self).list().flags(),
            final(self).list().issued() == old(self).list().issued(),
            final(self).remaining_refs() == old(self).remaining_refs(),
            old(self).remaining_refs().len() == 0 ==> res is None && final(self).list().values()
                == old(self).list().values(),
            old(self).remaining_refs().len() > 0 ==> {
                &&& res matches Some(b)
                &&& b.node == old(self).remaining_refs()[0]
                &&& *b.value == old(self).remaining_values()[0]
                &&& final(self).list().values() == old(self).list().values().update(
                    old(self).lo(),
                    *final(b.value),
                )
            },
    {
        if self.is_empty() {
            return None;
        }
        let ghost lo = self.lo@;
        proof {
            self.list.lemma_ref_index(lo);
        }
        let node = self.list.ref_at_slot(self.front, Ghost(lo));
        match self.list.get_mut(node) {
            Some(value) => Some(BorrowedNodeMut { node, value }),
            None => None,
        }
    }

    /// Mutable access to the value at the back of the window; the window is unchanged.
    pub fn peek_back(&mut self) -> (res: Option<BorrowedNodeMut<'_, T>>)
        requires
            old(self).wf(),
        ensures
            final(self).wf(),
            *final(final(self).list) == *final(old(self).list),
            final(self).lo() == old(self).lo(),
            final(self).list().refs() == old(self).list().refs(),
            final(self).list().flags() == old(self).list().flags(),
            final(self).list().issued() == old(self).list().issued(),
            final(self).remaining_refs() == old(self).remaining_refs(),
            old(self).remaining_refs().len() == 0 ==> res is None && final(self).list().values()
                == old(self).list().values(),
            old(self).remaining_refs().len() > 0 ==> {
                &&& res matches Some(b)
                &&& b.node == old(self).remaining_refs().last()
                &&& *b.value == old(self).remaining_values().last()
                &&& final(self).list().values() == old(self).list().values().update(
                    old(self).hi() - 1,
                    *final(b.value),
                )
            },
    {
        if self.is_empty() {
            return None;
        }
        let ghost hi = self.hi();
        proof {
            self.list.lemma_ref_index(hi - 1);
        }
        let node = self.list.ref_at_slot(self.back, Ghost(hi - 1));
        match self.list.get_mut(node) {
            Some(value) => Some(BorrowedNodeMut { node, value }),
            None => None,
        }
    }

    /// Removes the value at the front of the window from the list.
    pub fn remove_front(&mut self) -> (res: Option<Removed<T>>)
        requires
            old(self).wf(),
        ensures
            final(self).wf(),
            *final(final(self).list) == *final(old(self).list),
            final(self).lo() == old(self).lo(),
            final(self).list().issued() == old(self).list().issued(),
            old(self).remaining_refs().len() == 0 ==> {
                &&& res is None
                &&& final(self).list().refs() == old(self).list().refs()
                &&& final(self).list().values() == old(self).list().values()
                &&& final(self).list().flags() == old(self).list().flags()
                &&& final(self).remaining_refs() == old(self).remaining_refs()
            },
            old(self).remaining_refs().len() > 0 ==> {
                &&& res matches Some(x)
                &&& x.spec_node() == old(self).remaining_refs()[0]
                &&& x.spec_value() == old(self).remaining_values()[0]
                &&& final(self).list().refs() == old(self).list().refs().remove(old(self).lo())
                &&& final(self).list().values() == old(self).list().values().remove(old(self).lo())
                &&& final(self).list().flags() == old(self).list().flags().remove(old(self).lo())
                &&& final(self).remaining_refs() == old(self).remaining_refs().drop_first()
                &&& final(self).remaining_values() == old(self).remaining_values().drop_first()
            },
    {
        if self.is_empty() {
            return None;
        }
        let ghost lo = self.lo@;
        let ghost hi = self.hi();
        let ghost l0 = *self.list;
        proof {
            self.list.lemma_ref_index(lo);
        }
        let node = self.list.ref_at_slot(self.front, Ghost(lo));
        let next = self.list.next_slot(self.front, Ghost(lo));
        let removed = self.list.remove(node);
        self.front = next;
        proof {
            let l1 = *self.list;
            let n = l0.order().len();
            assert(l1.refs().len() == n - 1);
            if lo < hi - 1 {
                l0.lemma_ref_index(lo + 1);
                l1.lemma_ref_index(lo);
                assert(l1.refs()[lo] == l0.refs()[lo + 1]);
                l0.lemma_ref_index(hi - 1);
                l1.lemma_ref_index(hi - 2);
                assert(l1.refs()[hi - 2] == l0.refs()[hi - 1]);
            }
            assert(self.remaining_refs() =~= old(self).remaining_refs().drop_first());
            assert(self.remaining_values() =~= old(self).remaining_values().drop_first());
        }
        removed
    }

    /// Removes the value at the back of the window from the list.
    pub fn remove_back(&mut self) -> (res: Option<Removed<T>>)
        requires
            old(self).wf(),
        ensures
            final(self).wf(),
            *final(final(self).list) == *final(old(self).list),
            final(self).lo() == old(self).lo(),
            final(self).list().issued() == old(self).list().issued(),
            old(self).remaining_refs().len() == 0 ==> {
                &&& res is None
                &&& final(self).list().refs() == old(self).list().refs()
                &&& final(self).list().values() == old(self).list().values()
                &&& final(self).list().flags() == old(self).list().flags()
                &&& final(self).remaining_refs() == old(self).remaining_refs()
            },
            old(self).remaining_refs().len() > 0 ==> {
                &&& res matches Some(x)
                &&& x.spec_node() == old(self).remaining_refs().last()
                &&& x.spec_value() == old(self).remaining_values().last()
                &&& final(self).list().refs() == old(self).list().refs().remove(old(self).hi() - 1)
                &&& final(self).list().values() == old(self).list().values().remove(old(self).hi() - 1)
                &&& final(self).list().flags() == old(self).list().flags().remove(old(self).hi() - 1)
                &&& final(self).remaining_refs() == old(self).remaining_refs().drop_last()
                &&& final(self).remaining_values() == old(self).remaining_values().drop_last()
            },
    {
        if self.is_empty() {
            return None;
        }
        let ghost lo = self.lo@;
        let ghost hi = self.hi();
        let ghost l0 = *self.list;
        proof {
            self.list.lemma_ref_index(hi - 1);
        }
        let node = self.list.ref_at_slot(self.back, Ghost(hi - 1));
        let prev = self.list.prev_slot(self.back, Ghost(hi - 1));
        let removed = self.list.remove(node);
        self.back = prev;
        proof {
            let l1 = *self.list;
            let n = l0.order().len();
            assert(l1.refs().len() == n - 1);
            if lo < hi - 1 {
                l0.lemma_ref_index(lo);
                l1.lemma_ref_index(lo);
                assert(l1.refs()[lo] == l0.refs()[lo]);
                l0.lemma_ref_index(hi - 2);
                l1.lemma_ref_index(hi - 2);
                assert(l1.refs()[hi - 2] == l0.refs()[hi - 2]);
            }
            assert(self.remaining_refs() =~= old(self).remaining_refs().drop_last());
            assert(self.remaining_values() =~= old(self).remaining_values().drop_last());
        }
        removed
    }
}


impl<T> List<T> {
    /// Cursor over the whole list.
    pub fn cursor(&self) -> (c: Cursor<'_, T>)
        requires
            self.wf(),
        ensures
            c.wf(),
            c.list() == *self,
            c.remaining_refs() == self.refs(),
            c.remaining_values() == self.values(),
    {
        Cursor::new(self)
    }

    /// References of the stored values, from the front to the back.
    pub fn node_refs(&self) -> (v: Vec<NodeRef>)
        requires
            self.wf(),
        ensures
            v@ == self.refs(),
    {
        let mut v: Vec<NodeRef> = Vec::new();
        let mut c = self.cursor();
        while !c.is_empty()
            invariant
                c.wf(),
                c.list() == *self,
                v@ + c.remaining_refs() == self.refs(),
            decreases c.remaining_refs().len(),
        {
            let ghost rest = c.remaining_refs();
            let b = c.pop_front().unwrap();
            v.push(b.node());
            proof {
                assert(v@ + c.remaining_refs() =~= self.refs()) by {
                    assert(rest == seq![rest[0]] + rest.drop_first());
                    assert(v@ =~= v@.drop_last().push(rest[0]));
                    assert(v@.drop_last() + rest =~= self.refs());
                }
            }
        }
        proof {
            assert(v@ + c.remaining_refs() =~= v@);
        }
        v
    }

    /// Mutable cursor over the whole list.
    pub fn cursor_mut(&mut self) -> (c: CursorMut<'_, T>)
        requires
            old(self).wf(),
        ensures
            c.wf(),
            c.list() == *old(self),
            c.lo() == 0,
            c.remaining_refs() == old(self).refs(),
            c.remaining_values() == old(self).values(),
            *final(c.list) == *final(self),
    {
        CursorMut::new(self)
    }
}


/// The window `s` after a history of pops: `true` takes the front element, `false`
/// the back one.
pub open spec fn after_pops<A>(s: Seq<A>, ops: Seq<bool>) -> Seq<A>
    decreases ops.len(),
{
    if ops.len() == 0 {
        s
    } else {
        let r = after_pops(s, ops.drop_last());
        if ops.last() {
            r.drop_first()
        } else {
            r.drop_last()
        }
    }
}

/// How many of `ops` take from the front.
pub open spec fn front_pops(ops: Seq<bool>) -> nat
    decreases ops.len(),
{
    if ops.len() == 0 {
        0
    } else {
        front_pops(ops.drop_last()) + if ops.last() {
            1nat
        } else {
            0nat
        }
    }
}

/// A cursor's window after any interleaving of front and back pops (or removals,
/// which shrink the window in the same way): after `f` front and `b` back pops it
/// holds the elements from position `f` up to `b` before the end, so its length
/// is the original length less the pops, the next front pop returns element `f`
/// and the next back pop the element `b` before the end. Each element is thus
/// visited once, whatever the order of the pops.
pub proof fn law_cursor_window<A>(s: Seq<A>, ops: Seq<bool>)
    requires
        ops.len() <= s.len(),
    ensures
        front_pops(ops) <= ops.len(),
        after_pops(s, ops) == s.subrange(
            front_pops(ops) as int,
            s.len() - (ops.len() - front_pops(ops)),
        ),
        after_pops(s, ops).len() == s.len() - ops.len(),
        ops.len() < s.len() ==> after_pops(s, ops)[0] == s[front_pops(ops) as int],
        ops.len() < s.len() ==> after_pops(s, ops).last() == s[s.len() - 1 - (ops.len()
            - front_pops(ops))],
    decreases ops.len(),
{
    if ops.len() > 0 {
        law_cursor_window(s, ops.drop_last());
        let f = front_pops(ops.drop_last()) as int;
        let b = ops.len() - 1 - f;
        let r = s.subrange(f, s.len() - b);
        if ops.last() {
            assert(r.drop_first() =~= s.subrange(f + 1, s.len() - b));
        } else {
            assert(r.drop_last() =~= s.subrange(f, s.len() - b - 1));
        }
    }
}

/// One call on a [`CursorMut`], as far as the window and the list's length go.
pub enum CursorOp {
    /// [`CursorMut::pop_front`] or [`CursorMut::skip_front`] that returned a value.
    PopFront,
    /// [`CursorMut::pop_back`] or [`CursorMut::skip_back`] that returned a value.
    PopBack,
    /// [`CursorMut::remove_front`] that returned a value.
    RemoveFront,
    /// [`CursorMut::remove_back`] that returned a value.
    RemoveBack,
    /// A peek, or any call that returned nothing.
    Peek,
}

/// The window `s` after the calls `ops`: taking from the front drops its first
/// element, taking from the back its last one, and a peek keeps it.
pub open spec fn window_after<A>(s: Seq<A>, ops: Seq<CursorOp>) -> Seq<A>
    decreases ops.len(),
{
    if ops.len() == 0 {
        s
    } else {
        let w = window_after(s, ops.drop_last());
        match ops.last() {
            CursorOp::PopFront => w.drop_first(),
            CursorOp::RemoveFront => w.drop_first(),
            CursorOp::PopBack => w.drop_last(),
            CursorOp::RemoveBack => w.drop_last(),
            CursorOp::Peek => w,
        }
    }
}

/// How many of `ops` take a value out of the window.
pub open spec fn taken(ops: Seq<CursorOp>) -> nat
    decreases ops.len(),
{
    if ops.len() == 0 {
        0
    } else {
        taken(ops.drop_last()) + if ops.last() is Peek {
            0nat
        } else {
            1nat
        }
    }
}

/// How many of `ops` remove a value from the list.
pub open spec fn removals(ops: Seq<CursorOp>) -> nat
    decreases ops.len(),
{
    if ops.len() == 0 {
        0
    } else {
        removals(ops.drop_last()) + if ops.last() is RemoveFront || ops.last() is RemoveBack {
            1nat
        } else {
            0nat
        }
    }
}

/// The length of a mutable cursor after any mix of pops, removals and peeks: with a
/// list of `m` values at the start, `p` pops and `r` removals that returned a value
/// leave `m - p - r` values in the window, the list keeps `m - r` values (only a
/// removal takes one out of it), and the window never holds more than the list.
pub proof fn law_cursor_mut_len<A>(s: Seq<A>, ops: Seq<CursorOp>)
    requires
        taken(ops) <= s.len(),
    ensures
        removals(ops) <= taken(ops),
        window_after(s, ops).len() == s.len() - taken(ops),
        window_after(s, ops).len() <= s.len() - removals(ops),
    decreases ops.len(),
{
    if ops.len() > 0 {
        law_cursor_mut_len(s, ops.drop_last());
    }
}

} // verus!
