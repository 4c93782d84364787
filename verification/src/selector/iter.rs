//! Visitors of the tasks stored in a [`Selector`](crate::selector::Selector).
use vstd::prelude::*;

use std::sync::Arc;

use crate::list::cursor::{Cursor, CursorMut};
use crate::list::{List, NodeRef};
use crate::selector::id::Id;
use crate::selector::wrappers::{Borrowed, BorrowedMut, Removed};

verus! {

/// Visits the tasks of a selector in insertion order, from either end.
pub struct Iter<'a, T> {
    cursor: Cursor<'a, T>,
    owner: usize,
    token: &'a Arc<()>,
}

impl<'a, T> Iter<'a, T> {
    pub closed spec fn wf(&self) -> bool {
        self.cursor.wf()
    }

    /// Key of the selector whose tasks are visited.
    pub closed spec fn owner(&self) -> usize {
        self.owner
    }

    /// Places of the tasks not visited yet, in order.
    pub closed spec fn remaining_nodes(&self) -> Seq<NodeRef> {
        self.cursor.remaining_refs()
    }

    /// Tasks not visited yet, in order.
    pub closed spec fn remaining_tasks(&self) -> Seq<T> {
        self.cursor.remaining_values()
    }

    pub(crate) fn new(list: &'a List<T>, owner: usize, token: &'a Arc<()>) -> (it: Self)
        requires
            list.wf(),
        ensures
            it.wf(),
            it.owner() == owner,
            it.remaining_nodes() == list.refs(),
            it.remaining_tasks() == list.values(),
    {
        Iter { cursor: list.cursor(), owner, token }
    }

    /// Number of tasks not visited yet.
    pub fn len(&self) -> (n: usize)
        requires
            self.wf(),
        ensures
            n == self.remaining_nodes().len(),
            n == self.remaining_tasks().len(),
    {
        self.cursor.len()
    }

    /// Visits the first task not visited yet.
    pub fn next(&mut self) -> (res: Option<Borrowed<'a, T>>)
        requires
            old(self).wf(),
        ensures
            final(self).wf(),
            final(self).owner() == old(self).owner(),
            old(self).remaining_nodes().len() == 0 ==> res is None && final(self).remaining_nodes()
                == old(self).remaining_nodes(),
            old(self).remaining_nodes().len() > 0 ==> {
                &&& res matches Some(b)
                &&& b.id.spec_node() == old(self).remaining_nodes()[0]
                &&& b.id.spec_owner() == old(self).owner()
                &&& *b.value == old(self).remaining_tasks()[0]
                &&& final(self).remaining_nodes() == old(self).remaining_nodes().drop_first()
                &&& final(self).remaining_tasks() == old(self).remaining_tasks().drop_first()
            },
    {
        match self.cursor.pop_front() {
            Some(b) => {
                let id = Id::new(self.owner, b.node(), self.token);
                Some(Borrowed { id, value: b.into_ref() })
            },
            None => None,
        }
    }

    /// Visits the last task not visited yet.
    pub fn next_back(&mut self) -> (res: Option<Borrowed<'a, T>>)
        requires
            old(self).wf(),
        ensures
            final(self).wf(),
            final(self).owner() == old(self).owner(),
            old(self).remaining_nodes().len() == 0 ==> res is None && final(self).remaining_nodes()
                == old(self).remaining_nodes(),
            old(self).remaining_nodes().len() > 0 ==> {
                &&& res matches Some(b)
                &&& b.id.spec_node() == old(self).remaining_nodes().last()
                &&& b.id.spec_owner() == old(self).owner()
                &&& *b.value == old(self).remaining_tasks().last()
                &&& final(self).remaining_nodes() == old(self).remaining_nodes().drop_last()
                &&& final(self).remaining_tasks() == old(self).remaining_tasks().drop_last()
            },
    {
        match self.cursor.pop_back() {
            Some(b) => {
                let id = Id::new(self.owner, b.node(), self.token);
                Some(Borrowed { id, value: b.into_ref() })
            },
            None => None,
        }
    }
}

/// Visits the tasks of a selector in insertion order, from either end, with
/// mutable access.
///
/// Its cursor and the ghost description of the list it began with are public, so
/// that contracts can follow the borrowed list to the end of the iteration.
pub struct IterMut<'a, T> {
    /// Cursor over the selector's list.
    pub cursor: CursorMut<'a, T>,
    /// Places stored when the iteration began, in order.
    pub base_nodes: Ghost<Seq<NodeRef>>,
    /// Queue marks of those places.
    pub base_marks: Ghost<Seq<bool>>,
    /// Places the list had handed out when the iteration began.
    pub base_issued: Ghost<Set<NodeRef>>,
    /// Key of the selector whose tasks are visited.
    pub owner: usize,
    /// Allocation that identifies that selector.
    pub token: &'a Arc<()>,
}

impl<'a, T> IterMut<'a, T> {
    /// The cursor is well formed and its list still fits the list the iteration
    /// began with.
    pub open spec fn wf(&self) -> bool {
        &&& self.cursor.wf()
        &&& self.cursor.list().fits_in(self.base_nodes@, self.base_marks@, self.base_issued@)
    }

    /// Key of the selector whose tasks are visited.
    pub open spec fn owner(&self) -> usize {
        self.owner
    }

    /// Places of the tasks not visited yet, in order.
    pub open spec fn remaining_nodes(&self) -> Seq<NodeRef> {
        self.cursor.remaining_refs()
    }

    /// Tasks not visited yet, in order.
    pub open spec fn remaining_tasks(&self) -> Seq<T> {
        self.cursor.remaining_values()
    }

    pub(crate) fn new(list: &'a mut List<T>, owner: usize, token: &'a Arc<()>) -> (it: Self)
        requires
            old(list).wf(),
        ensures
            it.wf(),
            it.owner() == owner,
            it.remaining_nodes() == old(list).refs(),
            it.remaining_tasks() == old(list).values(),
            it.base_nodes@ == old(list).refs(),
            it.base_marks@ == old(list).flags(),
            it.base_issued@ == old(list).issued(),
            it.cursor.list() == *old(list),
            *final(it.cursor.list) == *final(list),
    {
        proof {
            list.lemma_fits_itself();
        }
        let ghost l0 = *list;
        IterMut {
            cursor: list.cursor_mut(),
            base_nodes: Ghost(l0.refs()),
            base_marks: Ghost(l0.flags()),
            base_issued: Ghost(l0.issued()),
            owner,
            token,
        }
    }

    /// Number of tasks not visited yet.
    pub fn len(&self) -> (n: usize)
        requires
            self.wf(),
        ensures
            n == self.remaining_nodes().len(),
            n == self.remaining_tasks().len(),
    {
        self.cursor.len()
    }

    /// Visits the first task not visited yet.
    pub fn next(&mut self) -> (res: Option<BorrowedMut<'_, T>>)
        requires
            old(self).wf(),
        ensures
            final(self).wf(),
            final(self).owner() == old(self).owner(),
            final(self).base_nodes == old(self).base_nodes,
            final(self).base_marks == old(self).base_marks,
            final(self).base_issued == old(self).base_issued,
            *final(final(self).cursor.list) == *final(old(self).cursor.list),
            final(self).cursor.list().refs() == old(self).cursor.list().refs(),
            final(self).cursor.list().flags() == old(self).cursor.list().flags(),
            final(self).cursor.list().issued() == old(self).cursor.list().issued(),
            old(self).remaining_nodes().len() == 0 ==> res is None && final(self).remaining_nodes()
                == old(self).remaining_nodes() && final(self).cursor.list().values() == old(
                self,
            ).cursor.list().values(),
            old(self).remaining_nodes().len() > 0 ==> {
                &&& res matches Some(b)
                &&& b.id.spec_node() == old(self).remaining_nodes()[0]
                &&& b.id.spec_owner() == old(self).owner()
                &&& *b.value == old(self).remaining_tasks()[0]
                &&& final(self).cursor.list().values() == old(self).cursor.list().values().update(
                    old(self).cursor.lo(),
                    *final(b.value),
                )
                &&& final(self).remaining_nodes() == old(self).remaining_nodes().drop_first()
                &&& final(self).remaining_tasks() == old(self).remaining_tasks().drop_first()
            },
    {
        let owner = self.owner;
        let token = self.token;
        match self.cursor.pop_front() {
            Some(b) => {
                let id = Id::new(owner, b.node, token);
                Some(BorrowedMut { id, value: b.value })
            },
            None => None,
        }
    }

    /// Visits the last task not visited yet.
    pub fn next_back(&mut self) -> (res: Option<BorrowedMut<'_, T>>)
        requires
            old(self).wf(),
        ensures
            final(self).wf(),
            final(self).owner() == old(self).owner(),
            final(self).base_nodes == old(self).base_nodes,
            final(self).base_marks == old(self).base_marks,
            final(self).base_issued == old(self).base_issued,
            *final(final(self).cursor.list) == *final(old(self).cursor.list),
            final(self).cursor.list().refs() == old(self).cursor.list().refs(),
            final(self).cursor.list().flags() == old(self).cursor.list().flags(),
            final(self).cursor.list().issued() == old(self).cursor.list().issued(),
            old(self).remaining_nodes().len() == 0 ==> res is None && final(self).remaining_nodes()
                == old(self).remaining_nodes() && final(self).cursor.list().values() == old(
                self,
            ).cursor.list().values(),
            old(self).remaining_nodes().len() > 0 ==> {
                &&& res matches Some(b)
                &&& b.id.spec_node() == old(self).remaining_nodes().last()
                &&& b.id.spec_owner() == old(self).owner()
                &&& *b.value == old(self).remaining_tasks().last()
                &&& final(self).cursor.list().values() == old(self).cursor.list().values().update(
                    old(self).cursor.hi() - 1,
                    *final(b.value),
                )
                &&& final(self).remaining_nodes() == old(self).remaining_nodes().drop_last()
                &&& final(self).remaining_tasks() == old(self).remaining_tasks().drop_last()
            },
    {
        let owner = self.owner;
        let token = self.token;
        match self.cursor.pop_back() {
            Some(b) => {
                let id = Id::new(owner, b.node, token);
                Some(BorrowedMut { id, value: b.value })
            },
            None => None,
        }
    }
}

/// Takes the tasks out of a selector in insertion order, from either end.
pub struct IntoIter<T> {
    list: List<T>,
    owner: usize,
    token: Arc<()>,
}

impl<T> IntoIter<T> {
    pub closed spec fn wf(&self) -> bool {
        self.list.wf()
    }

    /// Key of the selector whose tasks are taken.
    pub closed spec fn owner(&self) -> usize {
        self.owner
    }

    /// Places of the tasks not taken yet, in order.
    pub closed spec fn remaining_nodes(&self) -> Seq<NodeRef> {
        self.list.refs()
    }

    /// Tasks not taken yet, in order.
    pub closed spec fn remaining_tasks(&self) -> Seq<T> {
        self.list.values()
    }

    pub(crate) fn new(list: List<T>, owner: usize, token: Arc<()>) -> (it: Self)
        requires
            list.wf(),
        ensures
            it.wf(),
            it.owner() == owner,
            it.remaining_nodes() == list.refs(),
            it.remaining_tasks() == list.values(),
    {
        IntoIter { list, owner, token }
    }

    /// Number of tasks not taken yet.
    pub fn len(&self) -> (n: usize)
        requires
            self.wf(),
        ensures
            n == self.remaining_nodes().len(),
            n == self.remaining_tasks().len(),
    {
        self.list.len()
    }

    /// Takes the first task not taken yet.
    pub fn next(&mut self) -> (res: Option<Removed<T>>)
        requires
            old(self).wf(),
        ensures
            final(self).wf(),
            final(self).owner() == old(self).owner(),
            old(self).remaining_nodes().len() == 0 ==> res is None && final(self).remaining_nodes()
                == old(self).remaining_nodes(),
            old(self).remaining_nodes().len() > 0 ==> {
                &&& res matches Some(x)
                &&& x.id.spec_node() == old(self).remaining_nodes()[0]
                &&& x.id.spec_owner() == old(self).owner()
                &&& x.value == old(self).remaining_tasks()[0]
                &&& final(self).remaining_nodes() == old(self).remaining_nodes().drop_first()
                &&& final(self).remaining_tasks() == old(self).remaining_tasks().drop_first()
            },
    {
        if self.list.is_empty() {
            return None;
        }
        proof {
            self.list.lemma_lens();
            self.list.lemma_ref_index(0);
        }
        let front = self.list.front_slot();
        let r = self.list.ref_at_slot(front, Ghost(0));
        let removed = self.list.remove(r).unwrap();
        proof {
            assert(old(self).list.refs().remove(0) =~= old(self).list.refs().drop_first());
            assert(old(self).list.values().remove(0) =~= old(self).list.values().drop_first());
        }
        let id = Id::new(self.owner, r, &self.token);
        Some(Removed { id, value: removed.into_inner() })
    }

    /// Takes the last task not taken yet.
    pub fn next_back(&mut self) -> (res: Option<Removed<T>>)
        requires
            old(self).wf(),
        ensures
            final(self).wf(),
            final(self).owner() == old(self).owner(),
            old(self).remaining_nodes().len() == 0 ==> res is None && final(self).remaining_nodes()
                == old(self).remaining_nodes(),
            old(self).remaining_nodes().len() > 0 ==> {
                &&& res matches Some(x)
                &&& x.id.spec_node() == old(self).remaining_nodes().last()
                &&& x.id.spec_owner() == old(self).owner()
                &&& x.value == old(self).remaining_tasks().last()
                &&& final(self).remaining_nodes() == old(self).remaining_nodes().drop_last()
                &&& final(self).remaining_tasks() == old(self).remaining_tasks().drop_last()
            },
    {
        if self.list.is_empty() {
            return None;
        }
        let ghost n = self.list.order().len() as int;
        proof {
            self.list.lemma_lens();
            self.list.lemma_ref_index(n - 1);
        }
        let back = self.list.back_slot();
        let r = self.list.ref_at_slot(back, Ghost(n - 1));
        let removed = self.list.remove(r).unwrap();
        proof {
            assert(old(self).list.refs().remove(n - 1) =~= old(self).list.refs().drop_last());
            assert(old(self).list.values().remove(n - 1) =~= old(self).list.values().drop_last());
        }
        let id = Id::new(self.owner, r, &self.token);
        Some(Removed { id, value: removed.into_inner() })
    }
}

/// Removes and yields the tasks for which a predicate returns `true`, visiting the
/// tasks in insertion order. Tasks it has not reached stay in the selector.
///
/// Its cursor and the ghost description of the list it began with are public, so
/// that contracts can follow the borrowed list to the end of the iteration.
pub struct ExtractIf<'a, T, F> {
    /// Cursor over the selector's list.
    pub cursor: CursorMut<'a, T>,
    /// Places stored when the iteration began, in order.
    pub base_nodes: Ghost<Seq<NodeRef>>,
    /// Queue marks of those places.
    pub base_marks: Ghost<Seq<bool>>,
    /// Places the list had handed out when the iteration began.
    pub base_issued: Ghost<Set<NodeRef>>,
    /// Key of the selector whose tasks are visited.
    pub owner: usize,
    /// Allocation that identifies that selector.
    pub token: &'a Arc<()>,
    /// Whether a task is taken out.
    pub pred: F,
}

impl<'a, T, F: Fn(&T) -> bool> ExtractIf<'a, T, F> {
    /// The predicate can be called on every task.
    pub open spec fn pred_callable(&self) -> bool {
        forall|t: &T| self.pred.requires((t,))
    }

    /// The cursor is well formed, its list still fits the list the iteration began
    /// with, and the predicate can be called.
    pub open spec fn wf(&self) -> bool {
        &&& self.cursor.wf()
        &&& self.cursor.list().fits_in(self.base_nodes@, self.base_marks@, self.base_issued@)
        &&& self.pred_callable()
    }

    /// Key of the selector whose tasks are visited.
    pub open spec fn owner(&self) -> usize {
        self.owner
    }

    /// The predicate.
    pub open spec fn pred(&self) -> F {
        self.pred
    }

    /// Places of the tasks not visited yet, in order.
    pub open spec fn remaining_nodes(&self) -> Seq<NodeRef> {
        self.cursor.remaining_refs()
    }

    /// Tasks not visited yet, in order.
    pub open spec fn remaining_tasks(&self) -> Seq<T> {
        self.cursor.remaining_values()
    }

    /// Places of all the tasks left in the selector, in order.
    pub open spec fn nodes(&self) -> Seq<NodeRef> {
        self.cursor.list().refs()
    }

    /// All the tasks left in the selector, in order.
    pub open spec fn tasks(&self) -> Seq<T> {
        self.cursor.list().values()
    }

    /// Position in [`Self::nodes`] of the first task not visited yet.
    pub open spec fn lo(&self) -> int {
        self.cursor.lo()
    }

    pub(crate) fn new(list: &'a mut List<T>, owner: usize, token: &'a Arc<()>, pred: F) -> (it: Self)
        requires
            old(list).wf(),
            forall|t: &T| pred.requires((t,)),
        ensures
            it.wf(),
            it.owner() == owner,
            it.pred() == pred,
            it.lo() == 0,
            it.remaining_nodes() == old(list).refs(),
            it.remaining_tasks() == old(list).values(),
            it.nodes() == old(list).refs(),
            it.tasks() == old(list).values(),
            it.base_nodes@ == old(list).refs(),
            it.base_marks@ == old(list).flags(),
            it.base_issued@ == old(list).issued(),
            it.cursor.list() == *old(list),
            *final(it.cursor.list) == *final(list),
    {
        proof {
            list.lemma_fits_itself();
        }
        let ghost l0 = *list;
        ExtractIf {
            cursor: list.cursor_mut(),
            base_nodes: Ghost(l0.refs()),
            base_marks: Ghost(l0.flags()),
            base_issued: Ghost(l0.issued()),
            owner,
            token,
            pred,
        }
    }

    /// Removes and returns the first task not visited yet for which the predicate
    /// returns `true`; the tasks before it stay.
    pub fn next(&mut self) -> (res: Option<Removed<T>>)
        requires
            old(self).wf(),
        ensures
            final(self).wf(),
            final(self).owner() == old(self).owner(),
            final(self).pred() == old(self).pred(),
            final(self).base_nodes == old(self).base_nodes,
            final(self).base_marks == old(self).base_marks,
            final(self).base_issued == old(self).base_issued,
            *final(final(self).cursor.list) == *final(old(self).cursor.list),
            res is None ==> {
                &&& final(self).remaining_nodes().len() == 0
                &&& forall|k: int|
                    0 <= k < old(self).remaining_tasks().len() ==> old(self).pred().ensures(
                        (&old(self).remaining_tasks()[k],),
                        false,
                    )
                &&& final(self).nodes() == old(self).nodes()
                &&& final(self).tasks() == old(self).tasks()
            },
            res matches Some(x) ==> exists|j: int|
                {
                    &&& 0 <= j < old(self).remaining_nodes().len()
                    &&& forall|k: int|
                        0 <= k < j ==> old(self).pred().ensures(
                            (&old(self).remaining_tasks()[k],),
                            false,
                        )
                    &&& old(self).pred().ensures((&old(self).remaining_tasks()[j],), true)
                    &&& x.id.spec_node() == old(self).remaining_nodes()[j]
                    &&& x.id.spec_owner() == old(self).owner()
                    &&& x.value == old(self).remaining_tasks()[j]
                    &&& final(self).remaining_nodes() == old(self).remaining_nodes().skip(j + 1)
                    &&& final(self).remaining_tasks() == old(self).remaining_tasks().skip(j + 1)
                    &&& final(self).lo() == old(self).lo() + j
                    &&& final(self).nodes() == old(self).nodes().remove(old(self).lo() + j)
                    &&& final(self).tasks() == old(self).tasks().remove(old(self).lo() + j)
                },
    {
        let ghost rr = self.cursor.remaining_refs();
        let ghost rv = self.cursor.remaining_values();
        let ghost lo0 = self.cursor.lo();
        let ghost mut j: int = 0;
        proof {
            self.cursor.list().lemma_lens();
        }
        loop
            invariant
                self.wf(),
                self.owner == old(self).owner,
                self.pred == old(self).pred,
                self.base_nodes == old(self).base_nodes,
                self.base_marks == old(self).base_marks,
                self.base_issued == old(self).base_issued,
                *final(self.cursor.list) == *final(old(self).cursor.list),
                rr == old(self).remaining_nodes(),
                rv == old(self).remaining_tasks(),
                lo0 == old(self).lo(),
                0 <= j <= rr.len(),
                rr.len() == rv.len(),
                self.cursor.remaining_refs() == rr.skip(j),
                self.cursor.remaining_values() == rv.skip(j),
                self.cursor.lo() == lo0 + j,
                self.cursor.list() == old(self).cursor.list(),
                forall|k: int| 0 <= k < j ==> self.pred.ensures((&rv[k],), false),
            decreases rr.len() - j,
        {
            let front = self.cursor.peek_front_ref();
            match front {
                None => {
                    return None;
                },
                Some(b) => {
                    assert(b.spec_value() == rv[j]);
                    if (self.pred)(b.get_protected()) {
                        let ghost l0 = self.cursor.list();
                        proof {
                            l0.lemma_lens();
                            assert(self.cursor.remaining_refs().len() > 0);
                        }
                        let removed = self.cursor.remove_front().unwrap();
                        proof {
                            l0.lemma_fits_after_remove(
                                self.cursor.list(),
                                lo0 + j,
                                self.base_nodes@,
                                self.base_marks@,
                                self.base_issued@,
                            );
                        }
                        let id = Id::new(self.owner, removed.node(), self.token);
                        proof {
                            assert(self.cursor.remaining_refs() =~= rr.skip(j + 1));
                            assert(self.cursor.remaining_values() =~= rv.skip(j + 1));
                        }
                        return Some(Removed { id, value: removed.into_inner() });
                    } else {
                        self.cursor.skip_front();
                        proof {
                            assert(self.cursor.remaining_refs() =~= rr.skip(j + 1));
                            assert(self.cursor.remaining_values() =~= rv.skip(j + 1));
                            j = j + 1;
                        }
                    }
                },
            }
        }
    }

    /// Removes and returns the last task not visited yet for which the predicate
    /// returns `true`; the tasks after it stay.
    pub fn next_back(&mut self) -> (res: Option<Removed<T>>)
        requires
            old(self).wf(),
        ensures
            final(self).wf(),
            final(self).owner() == old(self).owner(),
            final(self).pred() == old(self).pred(),
            final(self).base_nodes == old(self).base_nodes,
            final(self).base_marks == old(self).base_marks,
            final(self).base_issued == old(self).base_issued,
            *final(final(self).cursor.list) == *final(old(self).cursor.list),
            res is None ==> {
                &&& final(self).remaining_nodes().len() == 0
                &&& forall|k: int|
                    0 <= k < old(self).remaining_tasks().len() ==> old(self).pred().ensures(
                        (&old(self).remaining_tasks()[k],),
                        false,
                    )
                &&& final(self).nodes() == old(self).nodes()
                &&& final(self).tasks() == old(self).tasks()
            },
            res matches Some(x) ==> exists|j: int|
                {
                    &&& 0 <= j < old(self).remaining_nodes().len()
                    &&& forall|k: int|
                        j < k < old(self).remaining_nodes().len() ==> old(self).pred().ensures(
                            (&old(self).remaining_tasks()[k],),
                            false,
                        )
                    &&& old(self).pred().ensures((&old(self).remaining_tasks()[j],), true)
                    &&& x.id.spec_node() == old(self).remaining_nodes()[j]
                    &&& x.id.spec_owner() == old(self).owner()
                    &&& x.value == old(self).remaining_tasks()[j]
                    &&& final(self).remaining_nodes() == old(self).remaining_nodes().take(j)
                    &&& final(self).remaining_tasks() == old(self).remaining_tasks().take(j)
                    &&& final(self).lo() == old(self).lo()
                    &&& final(self).nodes() == old(self).nodes().remove(old(self).lo() + j)
                    &&& final(self).tasks() == old(self).tasks().remove(old(self).lo() + j)
                },
    {
        let ghost rr = self.cursor.remaining_refs();
        let ghost rv = self.cursor.remaining_values();
        let ghost lo0 = self.cursor.lo();
        proof {
            self.cursor.list().lemma_lens();
        }
        let ghost mut j: int = rr.len() as int;
        loop
            invariant
                self.wf(),
                self.owner == old(self).owner,
                self.pred == old(self).pred,
                self.base_nodes == old(self).base_nodes,
                self.base_marks == old(self).base_marks,
                self.base_issued == old(self).base_issued,
                *final(self.cursor.list) == *final(old(self).cursor.list),
                rr == old(self).remaining_nodes(),
                rv == old(self).remaining_tasks(),
                lo0 == old(self).lo(),
                0 <= j <= rr.len(),
                rr.len() == rv.len(),
                self.cursor.remaining_refs() == rr.take(j),
                self.cursor.remaining_values() == rv.take(j),
                self.cursor.lo() == lo0,
                self.cursor.list() == old(self).cursor.list(),
                forall|k: int| j <= k < rr.len() ==> self.pred.ensures((&rv[k],), false),
            decreases j,
        {
            let back = self.cursor.peek_back_ref();
            match back {
                None => {
                    return None;
                },
                Some(b) => {
                    assert(b.spec_value() == rv[j - 1]);
                    if (self.pred)(b.get_protected()) {
                        let ghost h = self.cursor.hi();
                        proof {
                            self.cursor.list().lemma_lens();
                        }
                        assert(self.cursor.remaining_refs().len() == h - self.cursor.lo());
                        assert(h - 1 == lo0 + j - 1);
                        let ghost l0 = self.cursor.list();
                        let removed = self.cursor.remove_back().unwrap();
                        proof {
                            l0.lemma_fits_after_remove(
                                self.cursor.list(),
                                h - 1,
                                self.base_nodes@,
                                self.base_marks@,
                                self.base_issued@,
                            );
                        }
                        let id = Id::new(self.owner, removed.node(), self.token);
                        proof {
                            assert(self.cursor.remaining_refs() =~= rr.take(j - 1));
                            assert(self.cursor.remaining_values() =~= rv.take(j - 1));
                            let jj = j - 1;
                            assert(old(self).cursor.remaining_refs().len() == rr.len());
                            assert(self.nodes() == old(self).nodes().remove(old(self).lo() + jj));
                            assert(removed.spec_node() == old(self).remaining_nodes()[jj]);
                            assert(removed.spec_value() == old(self).remaining_tasks()[jj]);
                        }
                        return Some(Removed { id, value: removed.into_inner() });
                    } else {
                        self.cursor.skip_back();
                        proof {
                            assert(self.cursor.remaining_refs() =~= rr.take(j - 1));
                            assert(self.cursor.remaining_values() =~= rv.take(j - 1));
                            j = j - 1;
                        }
                    }
                },
            }
        }
    }
}

} // verus!
