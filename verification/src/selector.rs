//! Selector over a dynamic set of tasks.
//!
//! The selector stores its tasks in a [`List`] and the wakeups it received in a
//! [`Receiver`] queue. A task is queued at most once at a time; the mark that says
//! whether it is queued lives next to the task in the list.
//!
//! Polling is a round: [`Selector::begin_round`] takes a snapshot marker (the newest
//! wakeup), then [`Selector::next_step`] hands out the woken tasks, oldest wakeup
//! first, until the marker is reached. The caller polls each task it is handed and
//! reports the outcome with [`Selector::wake`] (the task made progress and should be
//! polled again), [`Selector::remove`] (the task finished) or nothing (the task is
//! waiting for a wakeup).
use vstd::prelude::*;

use std::sync::Arc;

use crate::list::{entry_in, List, NodeRef};
use crate::queue::Receiver;

pub mod id;
pub mod iter;
pub mod wrappers;

pub use crate::selector::id::Id;
pub use crate::selector::wrappers::{Borrowed, BorrowedMut, Removed};

verus! {

use crate::selector::id::{allocation_address, law_id_eq};
use vstd::std_specs::cmp::PartialEqSpec;
use crate::selector::iter::{ExtractIf, IntoIter, Iter, IterMut};

/// One polling round: it serves the wakeups queued when it began, oldest first,
/// up to and including its marker.
pub struct PollRound {
    marker: Option<NodeRef>,
    done: bool,
}

impl PollRound {
    /// Newest wakeup that the round serves (`None` if nothing was queued).
    pub closed spec fn marker(&self) -> Option<NodeRef> {
        self.marker
    }

    /// Whether the round has served its marker (or found the queue empty).
    pub closed spec fn done(&self) -> bool {
        self.done
    }

    /// Whether the round has ended.
    pub fn is_done(&self) -> (b: bool)
        ensures
            b == self.done(),
    {
        self.done
    }
}

/// What the caller of [`Selector::next_step`] does next.
pub enum PollStep<T> {
    /// Poll the task with this ID, then report what it did.
    Poll(Id<T>),
    /// The selector stores no task: the stream of outputs has ended.
    Exhausted,
    /// No woken task is left in this round: wait for the next wakeup.
    Pending,
}

/// What polling a task once did, as the caller of [`Selector::next_step`] reports it.
pub enum Outcome {
    /// The task waits for a wakeup: nothing changes.
    Waiting,
    /// The task yielded a value and may yield more: it is polled again.
    Progressed,
    /// The task finished: it is taken out of the selector.
    Finished,
}

/// Number of wakeups at the front of `q` that a round skips before it stops: it stops
/// at the first wakeup of a stored task, or at the marker, or at the end of the queue.
pub open spec fn stop_index(q: Seq<NodeRef>, nodes: Seq<NodeRef>, marker: Option<NodeRef>) -> nat
    decreases q.len(),
{
    if q.len() == 0 {
        0
    } else if nodes.contains(q[0]) || marker == Some(q[0]) {
        0
    } else {
        1 + stop_index(q.drop_first(), nodes, marker)
    }
}

/// Where a round stops: within the queue, at a wakeup of a stored task or at the
/// marker, after wakeups that are neither.
pub proof fn lemma_stop_index(q: Seq<NodeRef>, nodes: Seq<NodeRef>, marker: Option<NodeRef>)
    ensures
        stop_index(q, nodes, marker) <= q.len(),
        forall|j: int|
            0 <= j < stop_index(q, nodes, marker) ==> !nodes.contains(#[trigger] q[j]) && marker
                != Some(q[j]),
        stop_index(q, nodes, marker) < q.len() ==> {
            let k = stop_index(q, nodes, marker) as int;
            nodes.contains(q[k]) || marker == Some(q[k])
        },
    decreases q.len(),
{
    if q.len() > 0 && !(nodes.contains(q[0]) || marker == Some(q[0])) {
        lemma_stop_index(q.drop_first(), nodes, marker);
        assert forall|j: int| 0 <= j < stop_index(q, nodes, marker) implies !nodes.contains(
            #[trigger] q[j],
        ) && marker != Some(q[j]) by {
            if j > 0 {
                assert(q[j] == q.drop_first()[j - 1]);
            }
        }
    }
}

/// A round never serves a wakeup queued after its marker: it stops at the marker at
/// the latest.
pub proof fn lemma_round_stops_at_marker(q: Seq<NodeRef>, nodes: Seq<NodeRef>, m: NodeRef, i: int)
    requires
        0 <= i < q.len(),
        q[i] == m,
    ensures
        stop_index(q, nodes, Some(m)) <= i,
{
    lemma_stop_index(q, nodes, Some(m));
}

/// How a round ends: with [`PollStep::Exhausted`] when no task is stored, with
/// [`PollStep::Pending`] otherwise.
pub open spec fn round_end<T>(tasks: Seq<T>) -> bool {
    tasks.len() == 0
}

/// A round ends with [`PollStep::Exhausted`] exactly when the selector stores no
/// task: with one stored task or more, the ending step is [`PollStep::Pending`], so
/// the stream of outputs ends only once every task is gone.
pub proof fn law_exhausted_exactly_when_empty<T>(tasks: Seq<T>)
    ensures
        round_end(tasks) <==> tasks.len() == 0,
        tasks.len() > 0 ==> !round_end(tasks),
{
}

/// Every element of a filtered sequence comes from the sequence.
pub proof fn lemma_filter_from<A>(s: Seq<A>, pred: spec_fn(A) -> bool, x: A)
    requires
        s.filter(pred).contains(x),
    ensures
        s.contains(x),
    decreases s.len(),
{
    reveal(Seq::filter);
    if s.len() > 0 {
        let f = s.drop_last().filter(pred);
        let j = choose|j: int| 0 <= j < s.filter(pred).len() && s.filter(pred)[j] == x;
        if pred(s.last()) && j == f.len() {
            assert(s[s.len() - 1] == x);
        } else {
            assert(f[j] == x);
            lemma_filter_from(s.drop_last(), pred, x);
            let k = choose|k: int| 0 <= k < s.drop_last().len() && s.drop_last()[k] == x;
            assert(s[k] == x);
        }
    }
}

/// Elements of `s` whose entry in `keep` is `true`, in order.
pub open spec fn select<A>(s: Seq<A>, keep: Seq<bool>) -> Seq<A>
    decreases s.len(),
{
    if s.len() == 0 {
        Seq::empty()
    } else {
        let rest = select(s.drop_last(), keep.drop_last());
        if keep[s.len() - 1] {
            rest.push(s.last())
        } else {
            rest
        }
    }
}

/// Selecting from a prefix one element longer adds that element exactly when it is kept.
pub proof fn lemma_select_step<A>(s: Seq<A>, keep: Seq<bool>, i: int)
    requires
        0 <= i < s.len(),
        i < keep.len(),
    ensures
        select(s.subrange(0, i + 1), keep.subrange(0, i + 1)) == if keep[i] {
            select(s.subrange(0, i), keep.subrange(0, i)).push(s[i])
        } else {
            select(s.subrange(0, i), keep.subrange(0, i))
        },
{
    assert(s.subrange(0, i + 1).drop_last() =~= s.subrange(0, i));
    assert(keep.subrange(0, i + 1).drop_last() =~= keep.subrange(0, i));
}

/// Selecting with a list of flags as long as the list picks a subsequence of it.
pub proof fn lemma_select_len<A>(s: Seq<A>, keep: Seq<bool>)
    ensures
        select(s, keep).len() <= s.len(),
    decreases s.len(),
{
    if s.len() > 0 {
        lemma_select_len(s.drop_last(), keep.drop_last());
    }
}

/// How many elements a selection keeps depends on the flags and the length only.
pub proof fn lemma_select_same_len<A, B>(s: Seq<A>, t: Seq<B>, keep: Seq<bool>)
    requires
        s.len() == t.len(),
    ensures
        select(s, keep).len() == select(t, keep).len(),
    decreases s.len(),
{
    if s.len() > 0 {
        lemma_select_same_len(s.drop_last(), t.drop_last(), keep.drop_last());
    }
}

/// Selector over a dynamic set of tasks `T`, polled with strategy `S`.
pub struct Selector<T, S> {
    /// Tasks that received a wakeup, oldest first.
    queue: Receiver,
    /// All tasks, in insertion order.
    list: List<T>,
    /// Strategy that determines how the selector polls the tasks.
    strategy: S,
    /// Shared allocation that identifies this selector.
    token: Arc<()>,
    /// Address of `token`.
    owner: usize,
}

impl<T, S> Selector<T, S> {
    /// The stored tasks, in insertion order.
    pub closed spec fn tasks(&self) -> Seq<T> {
        self.list.values()
    }

    /// Places of the stored tasks, in insertion order.
    pub closed spec fn nodes(&self) -> Seq<NodeRef> {
        self.list.refs()
    }

    /// Queued wakeups, oldest first.
    pub closed spec fn queued(&self) -> Seq<NodeRef> {
        self.queue@
    }

    /// Every place this selector has handed out.
    pub closed spec fn issued(&self) -> Set<NodeRef> {
        self.list.issued()
    }

    /// Key that the IDs of this selector carry.
    pub closed spec fn owner(&self) -> usize {
        self.owner
    }

    pub closed spec fn spec_strategy(&self) -> S {
        self.strategy
    }

    /// Queue marks of the stored tasks, in insertion order: whether each has a
    /// wakeup queued.
    pub closed spec fn marks(&self) -> Seq<bool> {
        self.list.flags()
    }

    /// A selector that differs from this one only in its list is well formed when the
    /// list fits this selector's stored tasks and their marks.
    proof fn lemma_replace_list(&self, other: Self)
        requires
            self.wf(),
            other.queue == self.queue,
            other.list.fits_in(self.nodes(), self.marks(), self.issued()),
        ensures
            other.wf(),
    {
        self.list.lemma_lens();
        assert forall|k: int|
            0 <= k < other.list.refs().len() implies (#[trigger] other.list.flags()[k]
            <==> other.queue@.contains(other.list.refs()[k])) by {
            assert(entry_in(self.nodes(), self.marks(), other.list.refs()[k], other.list.flags()[k]));
            let j = choose|j: int|
                0 <= j < self.nodes().len() && j < self.marks().len() && self.nodes()[j]
                    == other.list.refs()[k] && self.marks()[j] == other.list.flags()[k];
            assert(self.list.flags()[j] <==> self.queue@.contains(self.list.refs()[j]));
        }
    }

    /// The task with ID `id` is stored in this selector.
    pub open spec fn owns(&self, id: Id<T>) -> bool {
        id.spec_owner() == self.owner() && self.nodes().contains(id.spec_node())
    }

    /// Position of the task with ID `id`, in insertion order.
    pub open spec fn position(&self, id: Id<T>) -> int {
        self.nodes().index_of(id.spec_node())
    }

    /// Well-formedness: the list is well formed, no wakeup is queued twice, a stored
    /// task is marked exactly when it is queued, and every queued place was issued.
    pub closed spec fn wf(&self) -> bool {
        &&& self.list.wf()
        &&& self.queue@.no_duplicates()
        &&& forall|k: int|
            0 <= k < self.list.refs().len() ==> (#[trigger] self.list.flags()[k]
                <==> self.queue@.contains(self.list.refs()[k]))
        &&& forall|j: int|
            0 <= j < self.queue@.len() ==> self.list.issued().contains(#[trigger] self.queue@[j])
    }

    /// Facts that follow from [`Self::wf`].
    pub proof fn lemma_wf(&self)
        requires
            self.wf(),
        ensures
            self.nodes().no_duplicates(),
            self.nodes().len() == self.tasks().len(),
            self.queued().no_duplicates(),
            forall|r: NodeRef| self.nodes().contains(r) ==> self.issued().contains(r),
            forall|r: NodeRef| self.queued().contains(r) ==> self.issued().contains(r),
            self.marks().len() == self.nodes().len(),
            forall|k: int|
                0 <= k < self.nodes().len() ==> (#[trigger] self.marks()[k] <==> self.queued().contains(
                    self.nodes()[k],
                )),
    {
        self.list.lemma_live(NodeRef { index: 0, generation: 0 });
        self.list.lemma_lens();
        assert forall|r: NodeRef| self.nodes().contains(r) implies self.issued().contains(r) by {
            self.list.lemma_live(r);
            let k = self.list.position(r);
            self.list.lemma_issued_at(k);
        }
    }

    /// Creates an empty selector with the given strategy.
    pub fn new(strategy: S) -> (s: Self)
        ensures
            s.wf(),
            s.tasks() == Seq::<T>::empty(),
            s.nodes() == Seq::<NodeRef>::empty(),
            s.queued() == Seq::<NodeRef>::empty(),
            s.issued() == Set::<NodeRef>::empty(),
            s.spec_strategy() == strategy,
    {
        let token = Arc::new(());
        let owner = allocation_address(&token);
        Selector { queue: Receiver::new(), list: List::new(), strategy, token, owner }
    }

    /// Number of stored tasks.
    pub fn len(&self) -> (n: usize)
        requires
            self.wf(),
        ensures
            n == self.tasks().len(),
    {
        self.list.len()
    }

    /// Whether no task is stored.
    pub fn is_empty(&self) -> (b: bool)
        requires
            self.wf(),
        ensures
            b <==> self.tasks().len() == 0,
    {
        self.list.is_empty()
    }

    /// Whether a wakeup is queued, so that a new round would have something to serve.
    pub fn has_queued_wakeups(&self) -> (b: bool)
        ensures
            b <==> self.queued().len() > 0,
    {
        !self.queue.is_empty()
    }

    /// Whether `id` names a task of this selector that is still stored.
    fn owns_id(&self, id: &Id<T>) -> (b: bool)
        requires
            self.wf(),
        ensures
            b == self.owns(*id),
    {
        id.owner() == self.owner && self.list.contains_node(id.node())
    }

    /// Pushes the given task into the selector and queues a wakeup for it.
    ///
    /// Returns a mutable reference to the task, which also gives its [`Id`].
    pub fn push(&mut self, task: T) -> (res: BorrowedMut<'_, T>)
        requires
            old(self).wf(),
        ensures
            final(self).wf(),
            final(self).owner() == old(self).owner(),
            final(self).spec_strategy() == old(self).spec_strategy(),
            res.id.spec_owner() == old(self).owner(),
            !old(self).issued().contains(res.id.spec_node()),
            final(self).issued() == old(self).issued().insert(res.id.spec_node()),
            *res.value == task,
            final(self).nodes() == old(self).nodes().push(res.id.spec_node()),
            final(self).tasks() == old(self).tasks().push(*final(res.value)),
            final(self).queued() == old(self).queued().push(res.id.spec_node()),
    {
        let ghost old_self = *self;
        let r = self.list.push_back(&mut self.queue, task);
        proof {
            old_self.list.lemma_lens();
            self.list.lemma_lens();
        }
        let id = Id::new(self.owner, r, &self.token);
        proof {
            let l = self.list;
            let n = old_self.list.refs().len();
            assert(l.refs()[n as int] == r);
            assert(old_self.list.refs().no_duplicates()) by {
                old_self.list.lemma_live(r);
            }
            l.lemma_live(r);
            assert(l.position(r) == n);
            assert(!old_self.queue@.contains(r)) by {
                if old_self.queue@.contains(r) {
                    let j = choose|j: int| 0 <= j < old_self.queue@.len() && old_self.queue@[j] == r;
                    assert(old_self.list.issued().contains(old_self.queue@[j]));
                }
            }
            assert(self.queue@.no_duplicates()) by {
                assert forall|a: int, b: int|
                    0 <= a < self.queue@.len() && 0 <= b < self.queue@.len() && a != b implies self.queue@[a]
                    != self.queue@[b] by {
                    if a < old_self.queue@.len() && b < old_self.queue@.len() {
                    } else if a < old_self.queue@.len() {
                        assert(old_self.queue@.contains(old_self.queue@[a]));
                    } else {
                        assert(old_self.queue@.contains(old_self.queue@[b]));
                    }
                }
            }
            assert forall|k: int|
                0 <= k < l.refs().len() implies (#[trigger] l.flags()[k] <==> self.queue@.contains(
                l.refs()[k],
            )) by {
                if k < n {
                    assert(l.refs()[k] == old_self.list.refs()[k]);
                    assert(l.flags()[k] == old_self.list.flags()[k]);
                    assert(old_self.list.flags()[k] <==> old_self.queue@.contains(old_self.list.refs()[k]));
                    assert(l.refs()[k] != r) by {
                        old_self.list.lemma_issued_at(k);
                    }
                    if self.queue@.contains(l.refs()[k]) {
                        let j = choose|j: int| 0 <= j < self.queue@.len() && self.queue@[j] == l.refs()[k];
                        assert(j < old_self.queue@.len());
                        assert(old_self.queue@.contains(l.refs()[k]));
                    }
                    if old_self.queue@.contains(l.refs()[k]) {
                        let j = choose|j: int| 0 <= j < old_self.queue@.len() && old_self.queue@[j] == l.refs()[k];
                        assert(self.queue@[j] == l.refs()[k]);
                    }
                } else {
                    assert(self.queue@[self.queue@.len() - 1] == r);
                }
            }
            assert forall|j: int|
                0 <= j < self.queue@.len() implies l.issued().contains(#[trigger] self.queue@[j]) by {
                if j < old_self.queue@.len() {
                    assert(old_self.list.issued().contains(old_self.queue@[j]));
                }
            }
        }
        let value = self.list.get_mut(r).unwrap();
        BorrowedMut { id, value }
    }

    /// Whether the selector stores the task with ID `id`.
    pub fn contains(&self, id: &Id<T>) -> (b: bool)
        requires
            self.wf(),
        ensures
            b == self.owns(*id),
    {
        self.owns_id(id)
    }

    /// If the selector stores the task with ID `id`, returns a reference to it.
    pub fn get(&self, id: &Id<T>) -> (res: Option<Borrowed<'_, T>>)
        requires
            self.wf(),
        ensures
            res is Some <==> self.owns(*id),
            res matches Some(b) ==> {
                &&& b.id.spec_owner() == id.spec_owner()
                &&& b.id.spec_node() == id.spec_node()
                &&& *b.value == self.tasks()[self.position(*id)]
            },
    {
        if !self.owns_id(id) {
            return None;
        }
        let value = self.list.get(id.node()).unwrap();
        Some(Borrowed { id: id.clone(), value })
    }

    /// If the selector stores the task with ID `id`, returns a mutable reference to it.
    pub fn get_mut(&mut self, id: &Id<T>) -> (res: Option<BorrowedMut<'_, T>>)
        requires
            old(self).wf(),
        ensures
            final(self).wf(),
            final(self).nodes() == old(self).nodes(),
            final(self).queued() == old(self).queued(),
            final(self).issued() == old(self).issued(),
            final(self).owner() == old(self).owner(),
            final(self).spec_strategy() == old(self).spec_strategy(),
            res is Some <==> old(self).owns(*id),
            res is None ==> final(self).tasks() == old(self).tasks(),
            res matches Some(b) ==> {
                &&& b.id.spec_owner() == id.spec_owner()
                &&& b.id.spec_node() == id.spec_node()
                &&& *b.value == old(self).tasks()[old(self).position(*id)]
                &&& final(self).tasks() == old(self).tasks().update(
                    old(self).position(*id),
                    *final(b.value),
                )
            },
    {
        if !self.owns_id(id) {
            return None;
        }
        let id = id.clone();
        let value = self.list.get_mut(id.node()).unwrap();
        Some(BorrowedMut { id, value })
    }

    /// Like [`Self::get_mut`], and also returns the strategy, which the caller may
    /// need together with the task.
    pub fn get_mut_and_strategy(&mut self, id: &Id<T>) -> (res: Option<(BorrowedMut<'_, T>, &mut S)>)
        requires
            old(self).wf(),
        ensures
            final(self).wf(),
            final(self).nodes() == old(self).nodes(),
            final(self).queued() == old(self).queued(),
            final(self).issued() == old(self).issued(),
            final(self).owner() == old(self).owner(),
            res is Some <==> old(self).owns(*id),
            res is None ==> final(self).tasks() == old(self).tasks() && final(self).spec_strategy()
                == old(self).spec_strategy(),
            res matches Some(p) ==> {
                &&& p.0.id.spec_owner() == id.spec_owner()
                &&& p.0.id.spec_node() == id.spec_node()
                &&& *p.0.value == old(self).tasks()[old(self).position(*id)]
                &&& final(self).tasks() == old(self).tasks().update(
                    old(self).position(*id),
                    *final(p.0.value),
                )
                &&& *p.1 == old(self).spec_strategy()
                &&& final(self).spec_strategy() == *final(p.1)
            },
    {
        if !self.owns_id(id) {
            return None;
        }
        let id = id.clone();
        let value = self.list.get_mut(id.node()).unwrap();
        Some((BorrowedMut { id, value }, &mut self.strategy))
    }

    /// If the selector stores the task with ID `id`, removes it.
    ///
    /// A wakeup already queued for the task stays in the queue and is skipped when
    /// its turn comes.
    pub fn remove(&mut self, id: &Id<T>) -> (res: Option<Removed<T>>)
        requires
            old(self).wf(),
        ensures
            final(self).wf(),
            final(self).queued() == old(self).queued(),
            final(self).issued() == old(self).issued(),
            final(self).owner() == old(self).owner(),
            final(self).spec_strategy() == old(self).spec_strategy(),
            res is Some <==> old(self).owns(*id),
            res is None ==> final(self).tasks() == old(self).tasks() && final(self).nodes()
                == old(self).nodes(),
            res matches Some(x) ==> {
                let k = old(self).position(*id);
                &&& x.id.spec_owner() == id.spec_owner()
                &&& x.id.spec_node() == id.spec_node()
                &&& x.value == old(self).tasks()[k]
                &&& final(self).tasks() == old(self).tasks().remove(k)
                &&& final(self).nodes() == old(self).nodes().remove(k)
            },
    {
        if !self.owns_id(id) {
            return None;
        }
        let ghost old_list = self.list;
        let removed = self.list.remove(id.node()).unwrap();
        proof {
            let k = old_list.position(id.spec_node());
            old_list.lemma_lens();
            self.list.lemma_lens();
            old_list.list_remove_ensures(k);
            assert forall|j: int|
                0 <= j < self.list.refs().len() implies (#[trigger] self.list.flags()[j]
                <==> self.queue@.contains(self.list.refs()[j])) by {
                if j < k {
                    assert(self.list.flags()[j] == old_list.flags()[j]);
                    assert(self.list.refs()[j] == old_list.refs()[j]);
                } else {
                    assert(self.list.flags()[j] == old_list.flags()[j + 1]);
                    assert(self.list.refs()[j] == old_list.refs()[j + 1]);
                }
            }
        }
        Some(Removed { id: id.clone(), value: removed.into_inner() })
    }

    /// Queues a wakeup for the task with ID `id`, unless one is already queued or the
    /// selector does not store that task.
    pub fn wake(&mut self, id: &Id<T>)
        requires
            old(self).wf(),
        ensures
            final(self).wf(),
            final(self).tasks() == old(self).tasks(),
            final(self).nodes() == old(self).nodes(),
            final(self).issued() == old(self).issued(),
            final(self).owner() == old(self).owner(),
            final(self).spec_strategy() == old(self).spec_strategy(),
            final(self).queued() == if old(self).owns(*id) && !old(self).queued().contains(
                id.spec_node(),
            ) {
                old(self).queued().push(id.spec_node())
            } else {
                old(self).queued()
            },
    {
        if self.owns_id(id) {
            let r = id.node();
            proof {
                self.list.lemma_live(r);
                self.list.lemma_lens();
            }
            if !self.list.is_enqueued(r) {
                self.enqueue_live(r);
            }
        }
    }

    /// Queues a wakeup for the task at place `node`, unless one is already queued or
    /// the selector does not store a task there. This is [`Self::wake`] for a caller
    /// that kept only the place of the task (a waker, for example).
    pub fn wake_node(&mut self, node: NodeRef)
        requires
            old(self).wf(),
        ensures
            final(self).wf(),
            final(self).tasks() == old(self).tasks(),
            final(self).nodes() == old(self).nodes(),
            final(self).issued() == old(self).issued(),
            final(self).owner() == old(self).owner(),
            final(self).spec_strategy() == old(self).spec_strategy(),
            final(self).queued() == if old(self).nodes().contains(node) && !old(self).queued().contains(
                node,
            ) {
                old(self).queued().push(node)
            } else {
                old(self).queued()
            },
    {
        if self.list.contains_node(node) {
            proof {
                self.list.lemma_live(node);
                self.list.lemma_lens();
            }
            if !self.list.is_enqueued(node) {
                self.enqueue_live(node);
            }
        }
    }

    /// Queues a wakeup for the stored task at place `r`, which has none queued.
    fn enqueue_live(&mut self, r: NodeRef)
        requires
            old(self).wf(),
            old(self).nodes().contains(r),
            !old(self).queued().contains(r),
        ensures
            final(self).wf(),
            final(self).tasks() == old(self).tasks(),
            final(self).nodes() == old(self).nodes(),
            final(self).issued() == old(self).issued(),
            final(self).owner() == old(self).owner(),
            final(self).spec_strategy() == old(self).spec_strategy(),
            final(self).queued() == old(self).queued().push(r),
    {
        let ghost old_self = *self;
        proof {
            self.list.lemma_live(r);
            self.list.lemma_lens();
        }
        let ghost k = self.list.position(r);
        self.queue.enqueue(r);
        self.list.set_enqueued(r, true);
        proof {
            let l = self.list;
            l.lemma_lens();
            assert(self.queue@.no_duplicates()) by {
                assert forall|a: int, b: int|
                    0 <= a < self.queue@.len() && 0 <= b < self.queue@.len() && a != b implies self.queue@[a]
                    != self.queue@[b] by {
                    if a < old_self.queue@.len() && b < old_self.queue@.len() {
                    } else if a < old_self.queue@.len() {
                        assert(old_self.queue@.contains(old_self.queue@[a]));
                    } else {
                        assert(old_self.queue@.contains(old_self.queue@[b]));
                    }
                }
            }
            assert forall|j: int|
                0 <= j < l.refs().len() implies (#[trigger] l.flags()[j] <==> self.queue@.contains(
                l.refs()[j],
            )) by {
                if j != k {
                    assert(l.flags()[j] == old_self.list.flags()[j]);
                    assert(old_self.list.flags()[j] <==> old_self.queue@.contains(l.refs()[j]));
                    assert(l.refs()[j] != r);
                    if self.queue@.contains(l.refs()[j]) {
                        let a = choose|a: int| 0 <= a < self.queue@.len() && self.queue@[a] == l.refs()[j];
                        assert(a < old_self.queue@.len());
                        assert(old_self.queue@.contains(l.refs()[j]));
                    }
                    if old_self.queue@.contains(l.refs()[j]) {
                        let a = choose|a: int| 0 <= a < old_self.queue@.len() && old_self.queue@[a] == l.refs()[j];
                        assert(self.queue@[a] == l.refs()[j]);
                    }
                } else {
                    assert(self.queue@[self.queue@.len() - 1] == r);
                }
            }
            assert forall|j: int|
                0 <= j < self.queue@.len() implies l.issued().contains(#[trigger] self.queue@[j]) by {
                if j < old_self.queue@.len() {
                    assert(old_self.list.issued().contains(old_self.queue@[j]));
                } else {
                    old_self.list.lemma_issued_at(k);
                }
            }
        }
    }

    /// Applies the outcome of polling the task with ID `id`: a task that waits stays
    /// as it is, a task that made progress gets a wakeup queued (so that it is polled
    /// again), and a task that finished is removed and returned.
    pub fn report(&mut self, id: &Id<T>, outcome: Outcome) -> (r: Option<Removed<T>>)
        requires
            old(self).wf(),
        ensures
            final(self).wf(),
            final(self).issued() == old(self).issued(),
            final(self).owner() == old(self).owner(),
            final(self).spec_strategy() == old(self).spec_strategy(),
            outcome is Waiting ==> {
                &&& r is None
                &&& final(self).tasks() == old(self).tasks()
                &&& final(self).nodes() == old(self).nodes()
                &&& final(self).queued() == old(self).queued()
            },
            outcome is Progressed ==> {
                &&& r is None
                &&& final(self).tasks() == old(self).tasks()
                &&& final(self).nodes() == old(self).nodes()
                &&& final(self).queued() == if old(self).owns(*id) && !old(self).queued().contains(
                    id.spec_node(),
                ) {
                    old(self).queued().push(id.spec_node())
                } else {
                    old(self).queued()
                }
            },
            outcome is Finished ==> {
                &&& final(self).queued() == old(self).queued()
                &&& r is Some <==> old(self).owns(*id)
                &&& r is None ==> final(self).tasks() == old(self).tasks() && final(self).nodes()
                    == old(self).nodes()
                &&& r matches Some(x) ==> {
                    let k = old(self).position(*id);
                    &&& x.id.spec_owner() == id.spec_owner()
                    &&& x.id.spec_node() == id.spec_node()
                    &&& x.value == old(self).tasks()[k]
                    &&& final(self).tasks() == old(self).tasks().remove(k)
                    &&& final(self).nodes() == old(self).nodes().remove(k)
                }
            },
    {
        match outcome {
            Outcome::Waiting => None,
            Outcome::Progressed => {
                self.wake(id);
                None
            },
            Outcome::Finished => self.remove(id),
        }
    }

    /// Returns a reference to the strategy used by this selector.
    pub fn strategy(&self) -> (r: &S)
        ensures
            *r == self.spec_strategy(),
    {
        &self.strategy
    }

    /// Returns a mutable reference to the strategy used by this selector.
    pub fn strategy_mut(&mut self) -> (r: &mut S)
        requires
            old(self).wf(),
        ensures
            *r == old(self).spec_strategy(),
            final(self).spec_strategy() == *final(r),
            final(self).wf(),
            final(self).tasks() == old(self).tasks(),
            final(self).nodes() == old(self).nodes(),
            final(self).queued() == old(self).queued(),
            final(self).issued() == old(self).issued(),
            final(self).owner() == old(self).owner(),
    {
        &mut self.strategy
    }

    /// Returns a selector with the same tasks and wakeups, but a different strategy.
    pub fn with_strategy<S1>(self, strategy: S1) -> (s: Selector<T, S1>)
        requires
            self.wf(),
        ensures
            s.wf(),
            s.tasks() == self.tasks(),
            s.nodes() == self.nodes(),
            s.queued() == self.queued(),
            s.issued() == self.issued(),
            s.owner() == self.owner(),
            s.spec_strategy() == strategy,
    {
        Selector {
            queue: self.queue,
            list: self.list,
            strategy,
            token: self.token,
            owner: self.owner,
        }
    }

    /// Begins a polling round: its marker is the newest queued wakeup.
    ///
    /// The caller registers its waker before this call, so that a wakeup queued
    /// after the marker is never missed.
    pub fn begin_round(&self) -> (round: PollRound)
        ensures
            round.marker() == (if self.queued().len() == 0 {
                None
            } else {
                Some(self.queued().last())
            }),
            round.done() == (self.queued().len() == 0),
    {
        let marker = self.queue.register_waker();
        PollRound { marker, done: marker.is_none() }
    }

    /// Step of the round that ends it.
    fn end_step(&self) -> (step: PollStep<T>)
        requires
            self.wf(),
        ensures
            round_end(self.tasks()) ==> step is Exhausted,
            !round_end(self.tasks()) ==> step is Pending,
    {
        if self.list.is_empty() {
            PollStep::Exhausted
        } else {
            PollStep::Pending
        }
    }

    /// Next step of a polling round.
    ///
    /// Takes wakeups from the front of the queue, skipping those of removed tasks,
    /// until it takes the wakeup of a stored task (whose queue mark it clears, so that
    /// the task can be woken again while it is polled) or the round's marker. Then the
    /// caller polls that task and reports the outcome with [`Self::report`].
    /// When the round has ended, the step says whether the selector is exhausted.
    pub fn next_step(&mut self, round: &mut PollRound) -> (step: PollStep<T>)
        requires
            old(self).wf(),
        ensures
            final(self).wf(),
            final(self).tasks() == old(self).tasks(),
            final(self).nodes() == old(self).nodes(),
            final(self).issued() == old(self).issued(),
            final(self).owner() == old(self).owner(),
            final(self).spec_strategy() == old(self).spec_strategy(),
            final(round).marker() == old(round).marker(),
            step matches PollStep::Poll(id) ==> !final(self).queued().contains(id.spec_node()),
            old(round).done() ==> {
                &&& final(self).queued() == old(self).queued()
                &&& final(round).done()
                &&& round_end(old(self).tasks()) ==> step is Exhausted
                &&& !round_end(old(self).tasks()) ==> step is Pending
            },
            !old(round).done() ==> {
                let q = old(self).queued();
                let k = stop_index(q, old(self).nodes(), old(round).marker()) as int;
                &&& k == q.len() ==> {
                    &&& final(self).queued() == Seq::<NodeRef>::empty()
                    &&& final(round).done()
                    &&& round_end(old(self).tasks()) ==> step is Exhausted
                    &&& !round_end(old(self).tasks()) ==> step is Pending
                }
                &&& k < q.len() ==> {
                    &&& final(self).queued() == q.skip(k + 1)
                    &&& final(round).done() == (old(round).marker() == Some(q[k]))
                    &&& old(self).nodes().contains(q[k]) ==> (step matches PollStep::Poll(id)
                        && id.spec_node() == q[k] && id.spec_owner() == old(self).owner())
                    &&& !old(self).nodes().contains(q[k]) ==> {
                        &&& round_end(old(self).tasks()) ==> step is Exhausted
                        &&& !round_end(old(self).tasks()) ==> step is Pending
                    }
                }
            },
    {
        if round.done {
            return self.end_step();
        }
        let ghost q = self.queue@;
        let ghost marker = round.marker;
        let ghost k = stop_index(q, self.list.refs(), marker) as int;
        let ghost mut j: int = 0;
        proof {
            lemma_stop_index(q, self.list.refs(), marker);
            self.list.lemma_lens();
        }
        loop
            invariant
                self.wf(),
                round.marker == marker,
                marker == old(round).marker,
                !old(round).done,
                q == old(self).queue@,
                !round.done,
                0 <= j <= k <= q.len(),
                k == stop_index(q, self.list.refs(), marker),
                self.queue@ == q.skip(j),
                self.list == old(self).list,
                self.strategy == old(self).strategy,
                self.owner == old(self).owner,
                forall|i: int| 0 <= i < k ==> !self.list.refs().contains(#[trigger] q[i]) && marker
                    != Some(q[i]),
                k < q.len() ==> self.list.refs().contains(q[k]) || marker == Some(q[k]),
            decreases q.len() - j,
        {
            let ghost before = *self;
            match self.queue.dequeue() {
                None => {
                    round.done = true;
                    proof {
                        assert(self.queue@ =~= Seq::<NodeRef>::empty());
                    }
                    return self.end_step();
                },
                Some(r) => {
                    assert(r == q[j]);
                    let is_last = match round.marker {
                        Some(m) => m == r,
                        None => false,
                    };
                    proof {
                        assert(self.queue@ =~= q.skip(j + 1));
                        // the queue lost its front entry
                        assert forall|i: int| 0 <= i < self.queue@.len() implies #[trigger] self.queue@[i]
                            == before.queue@[i + 1] by {}
                    }
                    if self.owns_node(r) {
                        proof {
                            assert(j == k);
                        }
                        if is_last {
                            round.done = true;
                        }
                        self.clear_mark(r, Ghost(before.queue@));
                        proof {
                            assert(!self.queue@.contains(r)) by {
                                if self.queue@.contains(r) {
                                    let a = choose|a: int| 0 <= a < self.queue@.len() && self.queue@[a] == r;
                                    assert(before.queue@[a + 1] == before.queue@[0]);
                                }
                            }
                        }
                        return PollStep::Poll(Id::new(self.owner, r, &self.token));
                    }
                    proof {
                        before.list.lemma_live(r);
                        self.forget_front(before);
                    }
                    if is_last {
                        round.done = true;
                        proof {
                            assert(j == k);
                        }
                        return self.end_step();
                    }
                    proof {
                        assert(j < k);
                        j = j + 1;
                    }
                },
            }
        }
    }

    /// Whether `r` is the place of a stored task.
    fn owns_node(&self, r: NodeRef) -> (b: bool)
        requires
            self.list.wf(),
        ensures
            b == self.nodes().contains(r),
    {
        self.list.contains_node(r)
    }

    /// After the queue lost its front entry `before.queue@[0]`, which is not the wakeup
    /// of a stored task, the selector is still well formed.
    proof fn forget_front(&self, before: Self)
        requires
            before.wf(),
            before.queue@.len() > 0,
            !before.list.refs().contains(before.queue@[0]),
            self.list == before.list,
            self.queue@ == before.queue@.drop_first(),
        ensures
            self.wf(),
    {
        assert forall|a: int, b: int|
            0 <= a < self.queue@.len() && 0 <= b < self.queue@.len() && a != b implies self.queue@[a]
            != self.queue@[b] by {
            assert(before.queue@[a + 1] != before.queue@[b + 1]);
        }
        assert forall|k: int|
            0 <= k < self.list.refs().len() implies (#[trigger] self.list.flags()[k]
            <==> self.queue@.contains(self.list.refs()[k])) by {
            let r = self.list.refs()[k];
            assert(before.list.flags()[k] <==> before.queue@.contains(r));
            if self.queue@.contains(r) {
                let a = choose|a: int| 0 <= a < self.queue@.len() && self.queue@[a] == r;
                assert(before.queue@[a + 1] == r);
            }
            if before.queue@.contains(r) {
                let a = choose|a: int| 0 <= a < before.queue@.len() && before.queue@[a] == r;
                assert(a != 0);
                assert(self.queue@[a - 1] == r);
            }
        }
        assert forall|j: int|
            0 <= j < self.queue@.len() implies self.list.issued().contains(#[trigger] self.queue@[j]) by {
            assert(before.list.issued().contains(before.queue@[j + 1]));
        }
    }

    /// After the queue lost its front entry `r`, the wakeup of a stored task, clears
    /// the task's queue mark.
    fn clear_mark(&mut self, r: NodeRef, Ghost(before): Ghost<Seq<NodeRef>>)
        requires
            old(self).list.wf(),
            before.len() > 0,
            before[0] == r,
            old(self).queue@ == before.drop_first(),
            before.no_duplicates(),
            old(self).list.refs().contains(r),
            forall|k: int|
                0 <= k < old(self).list.refs().len() ==> (#[trigger] old(self).list.flags()[k]
                    <==> before.contains(old(self).list.refs()[k])),
            forall|j: int|
                0 <= j < before.len() ==> old(self).list.issued().contains(#[trigger] before[j]),
        ensures
            final(self).wf(),
            final(self).list.refs() == old(self).list.refs(),
            final(self).list.values() == old(self).list.values(),
            final(self).list.issued() == old(self).list.issued(),
            final(self).queue@ == old(self).queue@,
            final(self).strategy == old(self).strategy,
            final(self).owner == old(self).owner,
            final(self).token == old(self).token,
    {
        let ghost old_self = *self;
        proof {
            self.list.lemma_live(r);
            self.list.lemma_lens();
        }
        let ghost p = self.list.position(r);
        self.list.set_enqueued(r, false);
        proof {
            let l = self.list;
            l.lemma_lens();
            assert forall|a: int, b: int|
                0 <= a < self.queue@.len() && 0 <= b < self.queue@.len() && a != b implies self.queue@[a]
                != self.queue@[b] by {
                assert(before[a + 1] != before[b + 1]);
            }
            assert(!self.queue@.contains(r)) by {
                if self.queue@.contains(r) {
                    let a = choose|a: int| 0 <= a < self.queue@.len() && self.queue@[a] == r;
                    assert(before[a + 1] == before[0]);
                }
            }
            assert forall|k: int|
                0 <= k < l.refs().len() implies (#[trigger] l.flags()[k] <==> self.queue@.contains(
                l.refs()[k],
            )) by {
                if k != p {
                    let x = l.refs()[k];
                    assert(x != r);
                    assert(old_self.list.flags()[k] <==> before.contains(x));
                    if self.queue@.contains(x) {
                        let a = choose|a: int| 0 <= a < self.queue@.len() && self.queue@[a] == x;
                        assert(before[a + 1] == x);
                    }
                    if before.contains(x) {
                        let a = choose|a: int| 0 <= a < before.len() && before[a] == x;
                        assert(a != 0);
                        assert(self.queue@[a - 1] == x);
                    }
                }
            }
            assert forall|j: int|
                0 <= j < self.queue@.len() implies l.issued().contains(#[trigger] self.queue@[j]) by {
                assert(old_self.list.issued().contains(before[j + 1]));
            }
        }
    }

    /// Retains only the tasks for which `pred` returns `true`, visiting them in
    /// insertion order.
    pub fn retain<F: Fn(&T) -> bool>(&mut self, pred: F)
        requires
            old(self).wf(),
            forall|t: &T| pred.requires((t,)),
        ensures
            final(self).wf(),
            final(self).queued() == old(self).queued(),
            final(self).issued() == old(self).issued(),
            final(self).owner() == old(self).owner(),
            final(self).spec_strategy() == old(self).spec_strategy(),
            exists|keep: Seq<bool>|
                {
                    &&& keep.len() == old(self).tasks().len()
                    &&& forall|k: int|
                        0 <= k < keep.len() ==> pred.ensures((&old(self).tasks()[k],), #[trigger] keep[k])
                    &&& final(self).tasks() == select(old(self).tasks(), keep)
                    &&& final(self).nodes() == select(old(self).nodes(), keep)
                },
    {
        let ghost old_list = self.list;
        let ghost n = old_list.refs().len() as int;
        let ghost mut keep: Seq<bool> = Seq::empty();
        proof {
            old_list.lemma_lens();
        }
        let mut cursor = self.list.cursor_mut();
        let ghost mut i: int = 0;
        while !cursor.is_empty()
            invariant
                cursor.wf(),
                0 <= i <= n,
                n == old_list.refs().len(),
                n == old_list.values().len(),
                keep.len() == i,
                forall|k: int| 0 <= k < i ==> pred.ensures((&old_list.values()[k],), #[trigger] keep[k]),
                forall|t: &T| pred.requires((t,)),
                cursor.lo() == select(old_list.refs().subrange(0, i), keep).len(),
                cursor.remaining_refs() == old_list.refs().subrange(i, n),
                cursor.remaining_values() == old_list.values().subrange(i, n),
                cursor.list().refs() == select(old_list.refs().subrange(0, i), keep) + old_list.refs().subrange(i, n),
                cursor.list().values() == select(old_list.values().subrange(0, i), keep) + old_list.values().subrange(i, n),
                cursor.list().issued() == old_list.issued(),
                forall|k: int|
                    0 <= k < cursor.list().refs().len() ==> (#[trigger] cursor.list().flags()[k]
                        <==> self.queue@.contains(cursor.list().refs()[k])),
                *final(cursor.list) == after_borrow(self.list),
            decreases n - i,
        {
            let front = cursor.peek_front_ref();
            match front {
                None => {},
                Some(b) => {
                    let ghost before = cursor.list();
                    let ghost lo = cursor.lo();
                    let kept = pred(b.get_protected());
                    proof {
                        let kk = keep.push(kept);
                        lemma_select_step(old_list.refs(), kk, i);
                        lemma_select_step(old_list.values(), kk, i);
                        assert(kk.subrange(0, i) =~= keep);
                        assert(kk.subrange(0, i + 1) =~= kk);
                        lemma_select_len(old_list.refs().subrange(0, i), keep);
                        lemma_select_same_len(old_list.refs().subrange(0, i), old_list.values().subrange(0, i), keep);
                    }
                    if kept {
                        cursor.skip_front();
                    } else {
                        cursor.remove_front();
                    }
                    proof {
                        let kk = keep.push(kept);
                        let a_r = select(old_list.refs().subrange(0, i), keep);
                        let a_v = select(old_list.values().subrange(0, i), keep);
                        let ir = old_list.refs().subrange(i, n);
                        let iv = old_list.values().subrange(i, n);
                        if kept {
                            assert(a_r.push(old_list.refs()[i]) + old_list.refs().subrange(i + 1, n) =~= a_r + ir);
                            assert(a_v.push(old_list.values()[i]) + old_list.values().subrange(i + 1, n) =~= a_v + iv);
                        } else {
                            assert((a_r + ir).remove(lo) =~= a_r + old_list.refs().subrange(i + 1, n));
                            assert((a_v + iv).remove(lo) =~= a_v + old_list.values().subrange(i + 1, n));
                            before.lemma_lens();
                            before.list_remove_ensures(lo);
                            assert forall|k: int|
                                0 <= k < cursor.list().refs().len() implies (#[trigger] cursor.list().flags()[k]
                                <==> self.queue@.contains(cursor.list().refs()[k])) by {
                                if k < lo {
                                    assert(cursor.list().flags()[k] == before.flags()[k]);
                                    assert(cursor.list().refs()[k] == before.refs()[k]);
                                } else {
                                    assert(cursor.list().flags()[k] == before.flags()[k + 1]);
                                    assert(cursor.list().refs()[k] == before.refs()[k + 1]);
                                }
                            }
                        }
                        keep = kk;
                        i = i + 1;
                    }
                },
            }
        }
        proof {
            assert(has_resolved(cursor));
            assert(old_list.refs().subrange(0, n) =~= old_list.refs());
            assert(old_list.values().subrange(0, n) =~= old_list.values());
        }
    }

    /// Returns an iterator over the tasks, in insertion order.
    pub fn iter(&self) -> (it: Iter<'_, T>)
        requires
            self.wf(),
        ensures
            it.wf(),
            it.owner() == self.owner(),
            it.remaining_nodes() == self.nodes(),
            it.remaining_tasks() == self.tasks(),
    {
        Iter::new(&self.list, self.owner, &self.token)
    }

    /// Returns an iterator that allows for modifying each task, in insertion order.
    pub fn iter_mut(&mut self) -> (it: IterMut<'_, T>)
        requires
            old(self).wf(),
        ensures
            it.wf(),
            it.owner() == old(self).owner(),
            it.remaining_nodes() == old(self).nodes(),
            it.remaining_tasks() == old(self).tasks(),
            it.base_nodes@ == old(self).nodes(),
            it.base_marks@ == old(self).marks(),
            it.base_issued@ == old(self).issued(),
            final(self).tasks() == (*final(it.cursor.list)).values(),
            final(self).nodes() == (*final(it.cursor.list)).refs(),
            final(self).marks() == (*final(it.cursor.list)).flags(),
            final(self).issued() == (*final(it.cursor.list)).issued(),
            (*final(it.cursor.list)).fits_in(old(self).nodes(), old(self).marks(), old(self).issued())
                ==> final(self).wf(),
            final(self).queued() == old(self).queued(),
            final(self).owner() == old(self).owner(),
            final(self).spec_strategy() == old(self).spec_strategy(),
    {
        proof {
            self.lemma_wf();
            assert forall|s1: Self|
                s1.queue == self.queue && s1.list.fits_in(self.nodes(), self.marks(), self.issued())
                    implies #[trigger] s1.wf() by {
                self.lemma_replace_list(s1);
            }
        }
        IterMut::new(&mut self.list, self.owner, &self.token)
    }

    /// Consumes the selector, returning an iterator that takes out its tasks in
    /// insertion order.
    pub fn into_iter(self) -> (it: IntoIter<T>)
        requires
            self.wf(),
        ensures
            it.wf(),
            it.owner() == self.owner(),
            it.remaining_nodes() == self.nodes(),
            it.remaining_tasks() == self.tasks(),
    {
        IntoIter::new(self.list, self.owner, self.token)
    }

    /// Creates an iterator which uses `pred` to determine if a task should be removed.
    ///
    /// If `pred` returns `true`, the task is removed from the selector and yielded.
    /// The tasks are visited in insertion order. Tasks that the iterator has not
    /// reached when it is dropped are retained.
    pub fn extract_if<F: Fn(&T) -> bool>(&mut self, pred: F) -> (it: ExtractIf<'_, T, F>)
        requires
            old(self).wf(),
            forall|t: &T| pred.requires((t,)),
        ensures
            it.wf(),
            it.owner() == old(self).owner(),
            it.pred() == pred,
            it.lo() == 0,
            it.remaining_nodes() == old(self).nodes(),
            it.remaining_tasks() == old(self).tasks(),
            it.nodes() == old(self).nodes(),
            it.tasks() == old(self).tasks(),
            it.base_nodes@ == old(self).nodes(),
            it.base_marks@ == old(self).marks(),
            it.base_issued@ == old(self).issued(),
            final(self).tasks() == (*final(it.cursor.list)).values(),
            final(self).nodes() == (*final(it.cursor.list)).refs(),
            final(self).marks() == (*final(it.cursor.list)).flags(),
            final(self).issued() == (*final(it.cursor.list)).issued(),
            (*final(it.cursor.list)).fits_in(old(self).nodes(), old(self).marks(), old(self).issued())
                ==> final(self).wf(),
            final(self).queued() == old(self).queued(),
            final(self).owner() == old(self).owner(),
            final(self).spec_strategy() == old(self).spec_strategy(),
    {
        proof {
            self.lemma_wf();
            assert forall|s1: Self|
                s1.queue == self.queue && s1.list.fits_in(self.nodes(), self.marks(), self.issued())
                    implies #[trigger] s1.wf() by {
                self.lemma_replace_list(s1);
            }
        }
        ExtractIf::new(&mut self.list, self.owner, &self.token, pred)
    }

    /// Queues a wakeup for every stored task that has none queued, in insertion order.
    pub fn wake_all(&mut self)
        requires
            old(self).wf(),
        ensures
            final(self).wf(),
            final(self).tasks() == old(self).tasks(),
            final(self).nodes() == old(self).nodes(),
            final(self).issued() == old(self).issued(),
            final(self).owner() == old(self).owner(),
            final(self).spec_strategy() == old(self).spec_strategy(),
            final(self).queued() == old(self).queued() + old(self).nodes().filter(
                |r: NodeRef| !old(self).queued().contains(r),
            ),
    {
        let refs = self.list.node_refs();
        let ghost q0 = self.queue@;
        let ghost nodes = self.list.refs();
        let ghost fresh = |r: NodeRef| !q0.contains(r);
        proof {
            self.lemma_wf();
        }
        let mut i: usize = 0;
        while i < refs.len()
            invariant
                self.wf(),
                refs@ == nodes,
                nodes == old(self).nodes(),
                q0 == old(self).queued(),
                fresh == (|r: NodeRef| !q0.contains(r)),
                0 <= i <= refs.len(),
                self.list.refs() == nodes,
                self.list.values() == old(self).tasks(),
                self.list.issued() == old(self).issued(),
                self.owner == old(self).owner,
                self.strategy == old(self).strategy,
                self.queue@ == q0 + nodes.subrange(0, i as int).filter(fresh),
                nodes.no_duplicates(),
            decreases refs.len() - i,
        {
            let r = refs[i];
            let ghost before = self.queue@;
            proof {
                reveal(Seq::filter);
                assert(nodes.subrange(0, i + 1).drop_last() =~= nodes.subrange(0, i as int));
                assert(nodes.subrange(0, i as int).filter(fresh).len() <= i) by {
                    nodes.subrange(0, i as int).lemma_filter_len(fresh);
                }
                // the wakeups added so far name tasks before position `i`, so not `r`
                assert(before.contains(r) <==> q0.contains(r)) by {
                    if q0.contains(r) {
                        let a = choose|a: int| 0 <= a < q0.len() && q0[a] == r;
                        assert(before[a] == r);
                    }
                    if before.contains(r) && !q0.contains(r) {
                        let a = choose|a: int| 0 <= a < before.len() && before[a] == r;
                        let f = nodes.subrange(0, i as int).filter(fresh);
                        assert(f[a - q0.len()] == r);
                        assert(f.contains(r));
                        lemma_filter_from(nodes.subrange(0, i as int), fresh, r);
                        assert(nodes.subrange(0, i as int).contains(r));
                        let b = choose|b: int| 0 <= b < i && nodes.subrange(0, i as int)[b] == r;
                        assert(nodes[b] == nodes[i as int]);
                    }
                }
                self.list.lemma_live(r);
                assert(self.list.refs()[i as int] == r);
            }
            if !self.list.is_enqueued(r) {
                self.enqueue_live(r);
            }
            proof {
                assert(self.queue@ =~= q0 + nodes.subrange(0, i + 1).filter(fresh));
            }
            i = i + 1;
        }
        proof {
            assert(nodes.subrange(0, nodes.len() as int) =~= nodes);
        }
    }

    /// Pushes each of the given tasks, in order, queueing a wakeup for each.
    pub fn extend(&mut self, tasks: Vec<T>)
        requires
            old(self).wf(),
        ensures
            final(self).wf(),
            final(self).tasks() == old(self).tasks() + tasks@,
            final(self).nodes().len() == old(self).nodes().len() + tasks@.len(),
            final(self).nodes().subrange(0, old(self).nodes().len() as int) == old(self).nodes(),
            final(self).queued() == old(self).queued() + final(self).nodes().subrange(
                old(self).nodes().len() as int,
                final(self).nodes().len() as int,
            ),
            forall|k: int|
                old(self).nodes().len() <= k < final(self).nodes().len() ==> !old(self).issued().contains(
                    #[trigger] final(self).nodes()[k],
                ),
            forall|r: NodeRef|
                #[trigger] final(self).issued().contains(r) <==> (old(self).issued().contains(r)
                    || final(self).nodes().subrange(
                    old(self).nodes().len() as int,
                    final(self).nodes().len() as int,
                ).contains(r)),
            final(self).owner() == old(self).owner(),
            final(self).spec_strategy() == old(self).spec_strategy(),
    {
        let ghost all = tasks@;
        let ghost n0 = self.nodes().len() as int;
        for task in it: tasks
            invariant
                self.wf(),
                it.seq() == all,
                self.tasks() == old(self).tasks() + all.subrange(0, it.index() as int),
                self.nodes().len() == n0 + it.index(),
                n0 == old(self).nodes().len(),
                self.nodes().subrange(0, n0) == old(self).nodes(),
                self.queued() == old(self).queued() + self.nodes().subrange(n0, self.nodes().len() as int),
                self.owner() == old(self).owner(),
                self.spec_strategy() == old(self).spec_strategy(),
                forall|j: int|
                    n0 <= j < self.nodes().len() ==> !old(self).issued().contains(
                        #[trigger] self.nodes()[j],
                    ),
                forall|r: NodeRef|
                    #[trigger] self.issued().contains(r) <==> (old(self).issued().contains(r)
                        || self.nodes().subrange(n0, self.nodes().len() as int).contains(r)),
        {
            let ghost k = it.index() as int;
            let ghost before = *self;
            let b = self.push(task);
            proof {
                assert(all.subrange(0, k + 1) =~= all.subrange(0, k).push(all[k]));
                assert(self.nodes().subrange(0, n0) =~= before.nodes().subrange(0, n0));
                assert(self.nodes().subrange(n0, self.nodes().len() as int) =~= before.nodes().subrange(
                    n0,
                    before.nodes().len() as int,
                ).push(self.nodes().last()));
                let nn = self.nodes().last();
                assert(self.nodes()[self.nodes().len() - 1] == nn);
                assert forall|j: int|
                    n0 <= j < self.nodes().len() implies !old(self).issued().contains(
                        #[trigger] self.nodes()[j],
                    ) by {
                    if j < self.nodes().len() - 1 {
                        assert(self.nodes()[j] == before.nodes()[j]);
                    }
                }
                assert forall|r: NodeRef|
                    old(self).issued().contains(r) || self.nodes().subrange(
                        n0,
                        self.nodes().len() as int,
                    ).contains(r) implies #[trigger] self.issued().contains(r) by {
                    if self.nodes().subrange(n0, self.nodes().len() as int).contains(r) && r != nn {
                        let a = choose|a: int| 0 <= a < self.nodes().len() - n0
                            && self.nodes().subrange(n0, self.nodes().len() as int)[a] == r;
                        assert(before.nodes().subrange(n0, before.nodes().len() as int)[a] == r);
                    }
                }
                assert forall|r: NodeRef|
                    #[trigger] self.issued().contains(r) implies (old(self).issued().contains(r)
                        || self.nodes().subrange(n0, self.nodes().len() as int).contains(r)) by {
                    if r == nn {
                        assert(self.nodes().subrange(n0, self.nodes().len() as int)[self.nodes().len() - 1 - n0] == nn);
                    } else if before.nodes().subrange(n0, before.nodes().len() as int).contains(r) {
                        let a = choose|a: int| 0 <= a < before.nodes().len() - n0
                            && before.nodes().subrange(n0, before.nodes().len() as int)[a] == r;
                        assert(self.nodes().subrange(n0, self.nodes().len() as int)[a] == r);
                    }
                }
            }
        }
        proof {
            assert(all.subrange(0, all.len() as int) =~= all);
        }
    }
}

impl<T, S: Default> Default for Selector<T, S> {
    fn default() -> (s: Self)
        ensures
            s.wf(),
            s.tasks() == Seq::<T>::empty(),
            s.nodes() == Seq::<NodeRef>::empty(),
            s.queued() == Seq::<NodeRef>::empty(),
            s.issued() == Set::<NodeRef>::empty(),
    {
        Self::new(S::default())
    }
}


/// A round never serves a wakeup that arrived after it began: whatever wakeups are
/// appended behind the snapshot `q0` whose newest entry is the marker, the round
/// stops within the snapshot.
pub proof fn law_round_serves_snapshot(
    q0: Seq<NodeRef>,
    appended: Seq<NodeRef>,
    nodes: Seq<NodeRef>,
)
    requires
        q0.len() > 0,
    ensures
        stop_index(q0 + appended, nodes, Some(q0.last())) < q0.len(),
{
    let q = q0 + appended;
    assert(q[q0.len() - 1] == q0.last());
    lemma_round_stops_at_marker(q, nodes, q0.last(), q0.len() - 1);
}

/// Wakeups are served in the order they arrived: every wakeup before the one a
/// round stops at names a removed task and is not the marker.
pub proof fn law_wakeups_served_in_order(q: Seq<NodeRef>, nodes: Seq<NodeRef>, marker: Option<NodeRef>, j: int)
    requires
        0 <= j < stop_index(q, nodes, marker),
    ensures
        !nodes.contains(q[j]),
        marker != Some(q[j]),
{
    lemma_stop_index(q, nodes, marker);
}

/// A round serves each wakeup of its snapshot exactly once, in order, when every one
/// of them names a stored task: whatever was queued behind the snapshot `q0` in the
/// meantime, step `i` stops at once at the front of the queue left by the earlier
/// steps, which is `q0[i]`, and only the last step serves the marker and so ends
/// the round.
pub proof fn law_round_serves_each_once(
    q0: Seq<NodeRef>,
    extra: Seq<NodeRef>,
    nodes: Seq<NodeRef>,
    i: int,
)
    requires
        q0.no_duplicates(),
        0 <= i < q0.len(),
        forall|j: int| 0 <= j < q0.len() ==> nodes.contains(#[trigger] q0[j]),
    ensures
        stop_index(q0.skip(i) + extra, nodes, Some(q0.last())) == 0,
        (q0.skip(i) + extra)[0] == q0[i],
        (q0.skip(i) + extra).skip(1) == q0.skip(i + 1) + extra,
        q0[i] == q0.last() <==> i == q0.len() - 1,
{
    let q = q0.skip(i) + extra;
    assert(q[0] == q0[i]);
    assert(nodes.contains(q0[i]));
    assert(q.skip(1) =~= q0.skip(i + 1) + extra);
    if q0[i] == q0.last() {
        assert(q0[i] == q0[q0.len() - 1]);
    }
}

/// A call made while a round is under way, as the contracts of the selector describe
/// its effect on the round.
pub enum RoundEvent {
    /// [`Selector::next_step`].
    Step,
    /// [`Selector::wake`], [`Selector::wake_node`] or a report of progress, for a place.
    Wake(NodeRef),
    /// [`Selector::remove`] or a report that a task finished, for a place.
    Remove(NodeRef),
}

/// State of a round: the queue, the stored places, whether the round ended, and the
/// places handed out so far.
pub type RoundState = (Seq<NodeRef>, Seq<NodeRef>, bool, Seq<NodeRef>);

/// Effect of one call on a round whose marker is `m`, as the contracts of
/// [`Selector::next_step`], [`Selector::wake`] and [`Selector::remove`] state it.
pub open spec fn round_step(st: RoundState, m: NodeRef, e: RoundEvent) -> RoundState {
    match e {
        RoundEvent::Step => if st.2 {
            st
        } else {
            let q = st.0;
            let k = stop_index(q, st.1, Some(m)) as int;
            if k >= q.len() {
                (Seq::empty(), st.1, true, st.3)
            } else {
                (
                    q.skip(k + 1),
                    st.1,
                    q[k] == m,
                    if st.1.contains(q[k]) {
                        st.3.push(q[k])
                    } else {
                        st.3
                    },
                )
            }
        },
        RoundEvent::Wake(n) => (
            if st.1.contains(n) && !st.0.contains(n) {
                st.0.push(n)
            } else {
                st.0
            },
            st.1,
            st.2,
            st.3,
        ),
        RoundEvent::Remove(n) => (
            st.0,
            if st.1.contains(n) {
                st.1.remove(st.1.index_of(n))
            } else {
                st.1
            },
            st.2,
            st.3,
        ),
    }
}

/// A round that began with the queue `q0` and the stored places `nodes`, after the
/// calls `events`.
pub open spec fn round_after(q0: Seq<NodeRef>, nodes: Seq<NodeRef>, events: Seq<RoundEvent>) -> RoundState
    decreases events.len(),
{
    if events.len() == 0 {
        (q0, nodes, q0.len() == 0, Seq::empty())
    } else {
        round_step(round_after(q0, nodes, events.drop_last()), q0.last(), events.last())
    }
}

/// What holds of a round at every point: it handed out each place at most once, only
/// places of its snapshot `q0`, and while it has not ended the queue still starts with
/// the part of the snapshot it has not reached, marker included.
pub open spec fn round_inv(st: RoundState, q0: Seq<NodeRef>) -> bool {
    &&& st.3.no_duplicates()
    &&& forall|i: int| 0 <= i < st.3.len() ==> q0.contains(#[trigger] st.3[i])
    &&& !st.2 ==> exists|t: int| round_at(st, q0, t)
}

/// While the round has not ended, it has handed out only places from the first `t`
/// entries of the snapshot, and the queue starts with the rest of the snapshot.
pub open spec fn round_at(st: RoundState, q0: Seq<NodeRef>, t: int) -> bool {
    &&& 0 <= t < q0.len()
    &&& st.0.len() >= q0.len() - t
    &&& forall|i: int| 0 <= i < q0.len() - t ==> #[trigger] st.0[i] == q0[t + i]
    &&& forall|i: int| 0 <= i < st.3.len() ==> q0.take(t).contains(#[trigger] st.3[i])
}

/// One call keeps the round invariant.
proof fn lemma_round_step(st: RoundState, q0: Seq<NodeRef>, e: RoundEvent)
    requires
        q0.no_duplicates(),
        q0.len() > 0,
        round_inv(st, q0),
    ensures
        round_inv(round_step(st, q0.last(), e), q0),
{
    let m = q0.last();
    let l = q0.len() as int;
    let st1 = round_step(st, m, e);
    match e {
        RoundEvent::Step => {
            if !st.2 {
                let t = choose|t: int| round_at(st, q0, t);
                let q = st.0;
                let nodes = st.1;
                assert(q[l - 1 - t] == q0[l - 1]);
                lemma_round_stops_at_marker(q, nodes, m, l - 1 - t);
                let k = stop_index(q, nodes, Some(m)) as int;
                assert(k < q.len());
                assert(q[k] == q0[t + k]);
                if q[k] == m {
                    assert(t + k == l - 1) by {
                        assert(q0[t + k] == q0[l - 1]);
                    }
                }
                let x = q[k];
                let served = st.3;
                if nodes.contains(x) {
                    assert(!served.contains(x)) by {
                        if served.contains(x) {
                            let i = choose|i: int| 0 <= i < served.len() && served[i] == x;
                            assert(q0.take(t).contains(served[i]));
                            let j = choose|j: int| 0 <= j < t && q0.take(t)[j] == x;
                            assert(q0[j] == q0[t + k]);
                        }
                    }
                    let s1 = served.push(x);
                    assert(s1.no_duplicates()) by {
                        assert forall|a: int, b: int|
                            0 <= a < s1.len() && 0 <= b < s1.len() && a != b implies s1[a] != s1[b] by {
                            if a < served.len() && b < served.len() {
                            } else if a < served.len() {
                                assert(served.contains(served[a]));
                            } else {
                                assert(served.contains(served[b]));
                            }
                        }
                    }
                    assert forall|i: int| 0 <= i < s1.len() implies q0.contains(#[trigger] s1[i]) by {
                        if i < served.len() {
                        } else {
                            assert(q0[t + k] == x);
                        }
                    }
                }
                if !st1.2 {
                    let t1 = t + k + 1;
                    assert(t1 < l);
                    assert(round_at(st1, q0, t1)) by {
                        assert forall|i: int| 0 <= i < q0.len() - t1 implies #[trigger] st1.0[i] == q0[t1 + i] by {
                            assert(st1.0[i] == q[k + 1 + i]);
                        }
                        assert forall|i: int| 0 <= i < st1.3.len() implies q0.take(t1).contains(#[trigger] st1.3[i]) by {
                            if i < served.len() {
                                assert(q0.take(t).contains(served[i]));
                                let j = choose|j: int| 0 <= j < t && q0.take(t)[j] == served[i];
                                assert(q0.take(t1)[j] == served[i]);
                            } else {
                                assert(q0.take(t1)[t + k] == x);
                            }
                        }
                    }
                }
            }
        },
        RoundEvent::Wake(n) => {
            if !st.2 {
                let t = choose|t: int| round_at(st, q0, t);
                assert(round_at(st1, q0, t)) by {
                    assert forall|i: int| 0 <= i < q0.len() - t implies #[trigger] st1.0[i] == q0[t + i] by {
                        assert(st1.0[i] == st.0[i]);
                    }
                }
            }
        },
        RoundEvent::Remove(n) => {
            if !st.2 {
                let t = choose|t: int| round_at(st, q0, t);
                assert(round_at(st1, q0, t));
            }
        },
    }
}

/// Each task is handed out at most once per round, even when it is woken again while
/// the round is under way: whatever mix of steps, wakeups and removals follows the
/// start of a round (snapshot `q0`, marker its newest entry), the places the round
/// hands out are distinct, and all come from the snapshot.
pub proof fn law_round_hands_out_each_task_at_most_once(
    q0: Seq<NodeRef>,
    nodes: Seq<NodeRef>,
    events: Seq<RoundEvent>,
)
    requires
        q0.no_duplicates(),
    ensures
        round_after(q0, nodes, events).3.no_duplicates(),
        forall|i: int|
            0 <= i < round_after(q0, nodes, events).3.len() ==> q0.contains(
                #[trigger] round_after(q0, nodes, events).3[i],
            ),
    decreases events.len(),
{
    if q0.len() == 0 {
        lemma_empty_round(q0, nodes, events);
    } else {
        lemma_round_inv(q0, nodes, events);
    }
}

/// A round that starts without a marker has ended and hands out nothing.
proof fn lemma_empty_round(q0: Seq<NodeRef>, nodes: Seq<NodeRef>, events: Seq<RoundEvent>)
    requires
        q0.len() == 0,
    ensures
        round_after(q0, nodes, events).2,
        round_after(q0, nodes, events).3.len() == 0,
    decreases events.len(),
{
    if events.len() > 0 {
        lemma_empty_round(q0, nodes, events.drop_last());
    }
}

/// The round invariant holds after any calls.
proof fn lemma_round_inv(q0: Seq<NodeRef>, nodes: Seq<NodeRef>, events: Seq<RoundEvent>)
    requires
        q0.no_duplicates(),
        q0.len() > 0,
    ensures
        round_inv(round_after(q0, nodes, events), q0),
    decreases events.len(),
{
    if events.len() == 0 {
        let st = round_after(q0, nodes, events);
        assert(round_at(st, q0, 0)) by {
            assert forall|i: int| 0 <= i < q0.len() implies #[trigger] st.0[i] == q0[0 + i] by {}
        }
    } else {
        lemma_round_inv(q0, nodes, events.drop_last());
        lemma_round_step(round_after(q0, nodes, events.drop_last()), q0, events.last());
    }
}

/// A task woken while it is being polled is polled again: the step that hands it out
/// takes its wakeup out of the queue, so waking it then queues it anew, at the back.
pub proof fn law_woken_while_polled_is_queued_again<T, S>(s1: Selector<T, S>, s2: Selector<T, S>, id: Id<T>)
    requires
        s1.wf(),
        s1.owns(id),
        !s1.queued().contains(id.spec_node()),
        s2.queued() == (if s1.owns(id) && !s1.queued().contains(id.spec_node()) {
            s1.queued().push(id.spec_node())
        } else {
            s1.queued()
        }),
    ensures
        s2.queued() == s1.queued().push(id.spec_node()),
        s2.queued().last() == id.spec_node(),
{
}

/// While a round has not ended, its marker stays queued: a step that does not serve
/// the marker leaves it in the queue, so every later step of the round again stops
/// at the marker at the latest.
pub proof fn law_round_keeps_marker_queued(q: Seq<NodeRef>, nodes: Seq<NodeRef>, m: NodeRef)
    requires
        q.contains(m),
    ensures
        stop_index(q, nodes, Some(m)) < q.len(),
        q[stop_index(q, nodes, Some(m)) as int] != m ==> q.skip(
            stop_index(q, nodes, Some(m)) + 1 as int,
        ).contains(m),
{
    let i = choose|i: int| 0 <= i < q.len() && q[i] == m;
    lemma_round_stops_at_marker(q, nodes, m, i);
    let k = stop_index(q, nodes, Some(m)) as int;
    if q[k] != m {
        assert(k < i);
        assert(q.skip(k + 1)[i - k - 1] == m);
    }
}

/// A task that was just pushed can be found again: its place is stored and holds
/// the pushed task.
pub proof fn law_get_after_push<T, S>(s0: Selector<T, S>, s1: Selector<T, S>, node: NodeRef, task: T)
    requires
        s0.wf(),
        s1.wf(),
        !s0.issued().contains(node),
        s1.nodes() == s0.nodes().push(node),
        s1.tasks() == s0.tasks().push(task),
    ensures
        s1.nodes().contains(node),
        s1.tasks()[s1.nodes().index_of(node)] == task,
{
    s0.lemma_wf();
    s1.lemma_wf();
    let n = s0.nodes().len() as int;
    assert(s1.nodes()[n] == node);
    let k = s1.nodes().index_of(node);
    assert(s1.nodes()[k] == node);
    assert(k == n);
}

/// A removed task stays removed: once its place is not stored, pushing another task
/// (which gets a place never handed out before) does not store it again.
pub proof fn law_removed_stays_removed<T, S>(
    s0: Selector<T, S>,
    s1: Selector<T, S>,
    removed: NodeRef,
    pushed: NodeRef,
)
    requires
        s0.wf(),
        s0.issued().contains(removed),
        !s0.nodes().contains(removed),
        !s0.issued().contains(pushed),
        s1.nodes() == s0.nodes().push(pushed),
    ensures
        !s1.nodes().contains(removed),
        removed != pushed,
{
    if s1.nodes().contains(removed) {
        let k = choose|k: int| 0 <= k < s1.nodes().len() && s1.nodes()[k] == removed;
        if k < s0.nodes().len() {
            assert(s0.nodes()[k] == removed);
        }
    }
}

/// IDs of two pushes into one selector differ: a push hands out a place that the
/// selector never handed out before, while every earlier ID names a place it did.
pub proof fn law_ids_of_distinct_pushes_differ<T, S>(s0: Selector<T, S>, earlier: Id<T>, later: Id<T>)
    requires
        s0.issued().contains(earlier.spec_node()),
        !s0.issued().contains(later.spec_node()),
    ensures
        earlier.spec_node() != later.spec_node(),
        !earlier.eq_spec(&later),
{
    law_id_eq(earlier, later);
    assert(earlier.spec_node() != later.spec_node());
}

/// Every stored task is found by its ID, and only stored tasks of this selector are:
/// the selector owns an ID exactly when the ID carries this selector's key and a
/// place that is stored, whatever the place's slot or generation.
pub proof fn law_owns_exactly_stored<T, S>(s: Selector<T, S>, id: Id<T>)
    requires
        s.wf(),
    ensures
        s.owns(id) <==> (id.spec_owner() == s.owner() && exists|k: int|
            0 <= k < s.nodes().len() && s.nodes()[k] == id.spec_node()),
        s.owns(id) ==> 0 <= s.position(id) < s.tasks().len() && s.nodes()[s.position(id)]
            == id.spec_node(),
{
    s.lemma_wf();
    if s.owns(id) {
        let k = s.nodes().index_of(id.spec_node());
        assert(s.nodes()[k] == id.spec_node());
    }
    if id.spec_owner() == s.owner() && exists|k: int|
        0 <= k < s.nodes().len() && s.nodes()[k] == id.spec_node() {
        let k = choose|k: int| 0 <= k < s.nodes().len() && s.nodes()[k] == id.spec_node();
        assert(s.nodes().contains(s.nodes()[k]));
    }
}

/// A task that was just pushed is found by the ID the push returned.
pub proof fn law_pushed_task_is_found<T, S>(s0: Selector<T, S>, s1: Selector<T, S>, id: Id<T>, task: T)
    requires
        s0.wf(),
        s1.wf(),
        id.spec_owner() == s1.owner(),
        !s0.issued().contains(id.spec_node()),
        s1.nodes() == s0.nodes().push(id.spec_node()),
        s1.tasks() == s0.tasks().push(task),
    ensures
        s1.owns(id),
        s1.tasks()[s1.position(id)] == task,
{
    law_get_after_push(s0, s1, id.spec_node(), task);
    law_owns_exactly_stored(s1, id);
    assert(s1.nodes()[s0.nodes().len() as int] == id.spec_node());
}

/// Removing a task takes it out: its place is no longer stored, and the other tasks
/// keep their order.
pub proof fn law_remove_takes_out<T, S>(s0: Selector<T, S>, s1: Selector<T, S>, node: NodeRef)
    requires
        s0.wf(),
        s0.nodes().contains(node),
        s1.nodes() == s0.nodes().remove(s0.nodes().index_of(node)),
    ensures
        !s1.nodes().contains(node),
        s1.nodes().len() == s0.nodes().len() - 1,
{
    s0.lemma_wf();
    let k = s0.nodes().index_of(node);
    s0.nodes().remove_ensures(k);
    if s1.nodes().contains(node) {
        let j = choose|j: int| 0 <= j < s1.nodes().len() && s1.nodes()[j] == node;
        if j < k {
            assert(s0.nodes()[j] == node);
        } else {
            assert(s0.nodes()[j + 1] == node);
        }
    }
}

/// A task is queued at most once: waking a task whose wakeup is queued, or a task
/// the selector does not store, leaves the queue as it is.
pub proof fn law_wake_is_idempotent<T, S>(s0: Selector<T, S>, s1: Selector<T, S>, id: Id<T>)
    requires
        s0.wf(),
        s1.queued() == (if s0.owns(id) && !s0.queued().contains(id.spec_node()) {
            s0.queued().push(id.spec_node())
        } else {
            s0.queued()
        }),
        s1.owner() == s0.owner(),
        s1.nodes() == s0.nodes(),
    ensures
        s1.queued().no_duplicates(),
        s1.queued().contains(id.spec_node()) <==> (s0.queued().contains(id.spec_node()) || s0.owns(id)),
{
    s0.lemma_wf();
    if s0.owns(id) && !s0.queued().contains(id.spec_node()) {
        let q = s0.queued();
        let n = id.spec_node();
        assert(s1.queued()[q.len() as int] == n);
        assert forall|a: int, b: int|
            0 <= a < s1.queued().len() && 0 <= b < s1.queued().len() && a != b implies s1.queued()[a]
            != s1.queued()[b] by {
            if a < q.len() && b < q.len() {
            } else if a < q.len() {
                assert(q.contains(q[a]));
            } else {
                assert(q.contains(q[b]));
            }
        }
    }
}

/// Waking twice is waking once: a second wake of the same task, with nothing in
/// between, leaves the queue as the first one left it.
pub proof fn law_wake_twice_is_wake_once<T, S>(
    s0: Selector<T, S>,
    s1: Selector<T, S>,
    s2: Selector<T, S>,
    id: Id<T>,
)
    requires
        s0.wf(),
        s1.queued() == (if s0.owns(id) && !s0.queued().contains(id.spec_node()) {
            s0.queued().push(id.spec_node())
        } else {
            s0.queued()
        }),
        s1.owner() == s0.owner(),
        s1.nodes() == s0.nodes(),
        s2.queued() == (if s1.owns(id) && !s1.queued().contains(id.spec_node()) {
            s1.queued().push(id.spec_node())
        } else {
            s1.queued()
        }),
    ensures
        s2.queued() == s1.queued(),
{
    if s0.owns(id) && !s0.queued().contains(id.spec_node()) {
        assert(s1.queued()[s0.queued().len() as int] == id.spec_node());
    }
}

} // verus!
