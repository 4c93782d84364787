//! Doubly-linked circular list of values stored in an arena of slots.
//!
//! Each stored value is identified by a [`NodeRef`]: the index of its slot and the
//! generation of that slot. A slot's generation grows every time its value leaves
//! the list, so a [`NodeRef`] never names two different values: once its value is
//! removed, the reference stays stale forever.
use vstd::prelude::*;

use crate::queue::Receiver;

pub mod cursor;

verus! {

/// Handle of a value stored in a [`List`].
#[derive(Clone, Copy, Debug, PartialEq, Eq, Hash, Structural)]
pub struct NodeRef {
    /// Index of the slot that holds the value.
    pub index: usize,
    /// Generation of the slot when the value was stored.
    pub generation: u64,
}

/// One place in the arena: a linked node, or a vacant place.
pub(crate) struct Slot {
    pub(crate) prev: usize,
    pub(crate) next: usize,
    pub(crate) generation: u64,
    pub(crate) enqueued: bool,
}

/// Slot that follows position `k` of the ring `o`.
pub open spec fn ring_next(o: Seq<usize>, k: int) -> usize {
    if k + 1 < o.len() {
        o[k + 1]
    } else {
        o[0]
    }
}

/// Slot that precedes position `k` of the ring `o`.
pub open spec fn ring_prev(o: Seq<usize>, k: int) -> usize {
    if k == 0 {
        o[o.len() - 1]
    } else {
        o[k - 1]
    }
}

/// The `next` and `prev` fields of the slots link the positions of `o` into one ring.
pub(crate) open spec fn links_ok(o: Seq<usize>, s: Seq<Slot>) -> bool {
    &&& forall|k: int| 0 <= k < o.len() ==> #[trigger] s[o[k] as int].next == ring_next(o, k)
    &&& forall|k: int| 0 <= k < o.len() ==> #[trigger] s[o[k] as int].prev == ring_prev(o, k)
}

/// Unlinking the node at position `k` (its predecessor now points forward to its
/// successor, and back) leaves a ring of the remaining positions.
proof fn lemma_ring_remove(o: Seq<usize>, s0: Seq<Slot>, s1: Seq<Slot>, k: int)
    requires
        o.no_duplicates(),
        1 < o.len(),
        0 <= k < o.len(),
        forall|j: int| 0 <= j < o.len() ==> #[trigger] o[j] < s0.len(),
        s1.len() == s0.len(),
        links_ok(o, s0),
        s1[ring_prev(o, k) as int].next == ring_next(o, k),
        s1[ring_next(o, k) as int].prev == ring_prev(o, k),
        forall|j: int|
            0 <= j < s0.len() && j != ring_prev(o, k) ==> #[trigger] s1[j].next == s0[j].next,
        forall|j: int|
            0 <= j < s0.len() && j != ring_next(o, k) ==> #[trigger] s1[j].prev == s0[j].prev,
    ensures
        links_ok(o.remove(k), s1),
{
    let n = o.len() as int;
    let no = o.remove(k);
    o.remove_ensures(k);
    let p = ring_prev(o, k);
    let x = ring_next(o, k);
    let pk = if k == 0 { n - 1 } else { k - 1 };
    let xk = if k + 1 < n { k + 1 } else { 0 };
    assert(o[pk] == p && o[xk] == x);
    let old_pos = |jp: int| if jp < k { jp } else { jp + 1 };
    assert forall|jp: int| 0 <= jp < n - 1 implies #[trigger] no[jp] == o[old_pos(jp)] by {}
    assert forall|jp: int| 0 <= jp < no.len() implies #[trigger] s1[no[jp] as int].next
        == ring_next(no, jp) by {
        let j = old_pos(jp);
        assert(no[jp] == o[j]);
        if j == pk {
            assert(o[j] == p);
        } else {
            assert(o[j] != p);
            assert(s0[o[j] as int].next == ring_next(o, j));
            if jp + 1 < n - 1 {
                assert(no[jp + 1] == o[old_pos(jp + 1)]);
            } else {
                assert(no[0] == o[old_pos(0)]);
            }
        }
    }
    assert forall|jp: int| 0 <= jp < no.len() implies #[trigger] s1[no[jp] as int].prev
        == ring_prev(no, jp) by {
        let j = old_pos(jp);
        assert(no[jp] == o[j]);
        if j == xk {
            assert(o[j] == x);
        } else {
            assert(o[j] != x);
            assert(s0[o[j] as int].prev == ring_prev(o, j));
            if jp == 0 {
                assert(no[no.len() - 1] == o[old_pos(no.len() - 1)]);
            } else {
                assert(no[jp - 1] == o[old_pos(jp - 1)]);
            }
        }
    }
}

/// Reference of the node at position `k` of `order`, given the slots.
/// `r` stands in `nodes` at a position where `marks` holds `mark`.
pub open spec fn entry_in(nodes: Seq<NodeRef>, marks: Seq<bool>, r: NodeRef, mark: bool) -> bool {
    exists|j: int| 0 <= j < nodes.len() && j < marks.len() && nodes[j] == r && marks[j] == mark
}

pub(crate) open spec fn ref_in(order: Seq<usize>, slots: Seq<Slot>, k: int) -> NodeRef {
    NodeRef { index: order[k], generation: slots[order[k] as int].generation }
}

/// Doubly-linked circular list of `T` values.
///
/// The list is the only owner of the values. They are reached through [`NodeRef`]s,
/// which stay valid handles (possibly stale ones) after the value is removed.
pub struct List<T> {
    pub(crate) slots: Vec<Slot>,
    /// Stored values, by slot (`None` for a vacant slot).
    pub(crate) items: Vec<Option<T>>,
    /// Vacant slots that may be reused.
    pub(crate) free: Vec<usize>,
    /// Slot of the front node (meaningless when the list is empty).
    pub(crate) front: usize,
    pub(crate) len: usize,
    /// Slots of the linked nodes, from the front to the back.
    pub(crate) order: Ghost<Seq<usize>>,
    /// Every reference this list has handed out.
    pub(crate) issued: Ghost<Set<NodeRef>>,
}

/// Value removed from a [`List`], together with the reference it had there.
pub struct Removed<T> {
    pub(crate) node: NodeRef,
    pub(crate) value: T,
}

impl<T> Removed<T> {
    pub closed spec fn spec_node(&self) -> NodeRef {
        self.node
    }

    pub closed spec fn spec_value(&self) -> T {
        self.value
    }

    /// Reference that the value had in the list.
    pub fn node(&self) -> (r: NodeRef)
        ensures
            r == self.spec_node(),
    {
        self.node
    }

    /// Reference to the removed value.
    pub fn get_pin(&self) -> (r: &T)
        ensures
            *r == self.spec_value(),
    {
        &self.value
    }

    /// Mutable reference to the removed value.
    pub fn get_pin_mut(&mut self) -> (r: &mut T)
        ensures
            *r == old(self).spec_value(),
            final(self).spec_value() == *final(r),
            final(self).spec_node() == old(self).spec_node(),
    {
        &mut self.value
    }

    /// Consumes the wrapper and returns the value.
    pub fn into_inner(self) -> (r: T)
        ensures
            r == self.spec_value(),
    {
        self.value
    }
}

impl<T> List<T> {
    /// Slot indices of the linked nodes, from the front to the back.
    pub closed spec fn order(&self) -> Seq<usize> {
        self.order@
    }

    /// Reference of the node at position `k`.
    #[verifier::inline]
    pub(crate) open spec fn node_at(&self, k: int) -> NodeRef {
        ref_in(self.order@, self.slots@, k)
    }

    /// References of the stored values, from the front to the back.
    pub closed spec fn refs(&self) -> Seq<NodeRef> {
        Seq::new(self.order@.len(), |k: int| self.node_at(k))
    }

    /// Stored values, from the front to the back.
    pub closed spec fn values(&self) -> Seq<T> {
        Seq::new(self.order@.len(), |k: int| self.items@[self.order@[k] as int]->0)
    }

    /// Queue marks of the stored values, from the front to the back.
    pub closed spec fn flags(&self) -> Seq<bool> {
        Seq::new(self.order@.len(), |k: int| self.slots@[self.order@[k] as int].enqueued)
    }

    /// Every reference the list has handed out so far.
    pub closed spec fn issued(&self) -> Set<NodeRef> {
        self.issued@
    }

    /// The value with reference `r` is stored in the list.
    pub open spec fn contains(&self, r: NodeRef) -> bool {
        self.refs().contains(r)
    }

    /// Position of the value with reference `r`, from the front.
    pub open spec fn position(&self, r: NodeRef) -> int {
        self.refs().index_of(r)
    }

    pub closed spec fn wf_order(&self) -> bool {
        let o = self.order@;
        &&& self.len == o.len()
        &&& self.len + self.free@.len() <= self.slots.len()
        &&& o.no_duplicates()
        &&& forall|k: int| 0 <= k < o.len() ==> #[trigger] o[k] < self.slots.len()
    }

    pub closed spec fn wf_occupied(&self) -> bool {
        &&& self.items.len() == self.slots.len()
        &&& forall|i: int|
            0 <= i < self.slots.len() ==> (#[trigger] self.items@[i] is Some
                <==> self.order@.contains(i as usize))
    }

    pub closed spec fn wf_links(&self) -> bool {
        &&& links_ok(self.order@, self.slots@)
        &&& self.order@.len() > 0 ==> self.front == self.order@[0]
    }

    pub closed spec fn wf_free(&self) -> bool {
        &&& self.free@.no_duplicates()
        &&& forall|j: int|
            0 <= j < self.free@.len() ==> {
                &&& #[trigger] self.free@[j] < self.slots.len()
                &&& self.items@[self.free@[j] as int] is None
                &&& self.slots@[self.free@[j] as int].generation < u64::MAX
            }
    }

    pub closed spec fn wf_issued(&self) -> bool {
        &&& forall|r: NodeRef|
            #[trigger] self.issued@.contains(r) ==> r.index < self.slots.len()
                && r.generation <= self.slots@[r.index as int].generation
        &&& forall|r: NodeRef|
            #[trigger] self.issued@.contains(r) && self.free@.contains(r.index) ==> r.generation
                < self.slots@[r.index as int].generation
        &&& forall|k: int|
            0 <= k < self.order@.len() ==> #[trigger] self.issued@.contains(
                ref_in(self.order@, self.slots@, k),
            )
    }

    /// Well-formedness: the links form one ring in the order of [`Self::order`],
    /// occupied slots are exactly the linked ones, and no reference is handed out twice.
    pub closed spec fn wf(&self) -> bool {
        &&& self.wf_order()
        &&& self.wf_occupied()
        &&& self.wf_links()
        &&& self.wf_free()
        &&& self.wf_issued()
    }

    /// The slot named by `r` holds the value that `r` refers to.
    pub closed spec fn slot_live(&self, r: NodeRef) -> bool {
        &&& r.index < self.slots.len()
        &&& self.items@[r.index as int] is Some
        &&& self.slots@[r.index as int].generation == r.generation
    }

    proof fn lemma_refs_no_duplicates(&self)
        requires
            self.wf(),
        ensures
            self.refs().no_duplicates(),
            self.refs().len() == self.order@.len(),
            self.values().len() == self.order@.len(),
            self.flags().len() == self.order@.len(),
    {
        assert forall|a: int, b: int|
            0 <= a < self.refs().len() && 0 <= b < self.refs().len() && a != b implies self.refs()[a]
            != self.refs()[b] by {
            assert(self.order@[a] != self.order@[b]);
        }
    }

    /// A reference is stored exactly when its slot is occupied with the same generation.
    pub(crate) proof fn lemma_live(&self, r: NodeRef)
        requires
            self.wf(),
        ensures
            self.contains(r) <==> self.slot_live(r),
            self.contains(r) ==> {
                let k = self.position(r);
                &&& 0 <= k < self.order@.len()
                &&& self.order@[k] == r.index
                &&& self.refs()[k] == r
            },
            self.refs().no_duplicates(),
    {
        self.lemma_refs_no_duplicates();
        if self.slot_live(r) {
            assert(self.items@[r.index as int] is Some);
            assert(self.order@.contains(r.index));
            let k = choose|k: int| 0 <= k < self.order@.len() && self.order@[k] == r.index;
            assert(self.refs()[k] == r);
        }
        if self.contains(r) {
            let k = choose|k: int| 0 <= k < self.refs().len() && self.refs()[k] == r;
            assert(self.order@[k] < self.slots.len());
            assert(self.order@.contains(self.order@[k]));
            assert(self.items@[self.order@[k] as int] is Some);
            let p = self.position(r);
            assert(self.refs()[p] == r);
        }
    }

    /// Creates an empty list.
    pub fn new() -> (l: Self)
        ensures
            l.wf(),
            l.refs() == Seq::<NodeRef>::empty(),
            l.values() == Seq::<T>::empty(),
            l.issued() == Set::<NodeRef>::empty(),
    {
        let l = List {
            slots: Vec::new(),
            items: Vec::new(),
            free: Vec::new(),
            front: 0,
            len: 0,
            order: Ghost(Seq::empty()),
            issued: Ghost(Set::empty()),
        };
        assert(l.refs() =~= Seq::<NodeRef>::empty());
        assert(l.values() =~= Seq::<T>::empty());
        l
    }

    /// Number of stored values.
    pub fn len(&self) -> (r: usize)
        requires
            self.wf(),
        ensures
            r == self.values().len(),
            r == self.refs().len(),
    {
        proof {
            self.lemma_refs_no_duplicates();
        }
        self.len
    }

    /// Whether no value is stored.
    pub fn is_empty(&self) -> (r: bool)
        requires
            self.wf(),
        ensures
            r <==> self.values().len() == 0,
            r <==> self.refs().len() == 0,
    {
        proof {
            self.lemma_refs_no_duplicates();
        }
        self.len == 0
    }

    /// Whether the value with reference `r` is stored.
    pub fn contains_node(&self, r: NodeRef) -> (b: bool)
        requires
            self.wf(),
        ensures
            b <==> self.contains(r),
    {
        proof {
            self.lemma_live(r);
        }
        r.index < self.slots.len() && self.items[r.index].is_some()
            && self.slots[r.index].generation == r.generation
    }

    /// Stores `value` at the back of the list, queues a wakeup for it in `queue`
    /// (marking it queued), and returns its new reference.
    pub fn push_back(&mut self, queue: &mut Receiver, value: T) -> (r: NodeRef)
        requires
            old(self).wf(),
        ensures
            final(self).wf(),
            final(self).refs() == old(self).refs().push(r),
            final(self).values() == old(self).values().push(value),
            final(self).flags() == old(self).flags().push(true),
            !old(self).issued().contains(r),
            final(self).issued() == old(self).issued().insert(r),
            final(queue)@ == old(queue)@.push(r),
    {
        let ghost before = *self;
        let r = self.insert_back(value);
        proof {
            before.lemma_lens();
            self.lemma_lens();
            self.lemma_live(r);
            assert(self.refs()[before.refs().len() as int] == r);
        }
        queue.enqueue(r);
        self.set_enqueued(r, true);
        proof {
            assert(self.flags() =~= before.flags().push(true));
        }
        r
    }

    /// Stores `value` at the back of the list, not queued, and returns its new
    /// reference.
    #[verifier::rlimit(40)]
    fn insert_back(&mut self, value: T) -> (r: NodeRef)
        requires
            old(self).wf(),
        ensures
            final(self).wf(),
            final(self).refs() == old(self).refs().push(r),
            final(self).values() == old(self).values().push(value),
            final(self).flags() == old(self).flags().push(false),
            !old(self).issued().contains(r),
            final(self).issued() == old(self).issued().insert(r),
    {
        let ghost old_self = *self;
        let ghost o = self.order@;
        let i: usize = match self.free.pop() {
            Some(i) => i,
            None => {
                self.slots.push(Slot { prev: 0, next: 0, generation: 0, enqueued: false });
                self.items.push(None);
                proof {
                    assert forall|r: NodeRef| self.issued@.contains(r) implies r.index
                        < old_self.slots.len() by {}
                }
                (self.slots.len() - 1) as usize
            },
        };
        let ghost mid = *self;
        assert(!o.contains(i)) by {
            if o.contains(i) {
                let k = choose|k: int| 0 <= k < o.len() && o[k] == i;
                assert(o[k] < old_self.slots.len());
                assert(old_self.items@[i as int] is Some);
            }
        }
        let generation = self.slots[i].generation;
        let r = NodeRef { index: i, generation };
        assert(!old_self.issued@.contains(r)) by {
            if old_self.issued@.contains(r) {
                if i < old_self.slots.len() {
                    assert(old_self.free@.contains(i));
                }
            }
        }
        if self.len == 0 {
            self.front = i;
            self.slots[i].prev = i;
            self.slots[i].next = i;
        } else {
            let front = self.front;
            let back = self.slots[front].prev;
            assert(back == o[o.len() - 1]);
            self.slots[front].prev = i;
            self.slots[back].next = i;
            self.slots[i].prev = back;
            self.slots[i].next = front;
        }
        self.items.set(i, Some(value));
        self.slots[i].enqueued = false;
        self.len = self.len + 1;
        self.order = Ghost(o.push(i));
        self.issued = Ghost(old_self.issued@.insert(r));
        proof {
            let no = o.push(i);
            assert(self.order@ == no);
            // every slot other than `i`, the front and the back keeps its fields
            assert forall|j: int|
                0 <= j < self.slots.len() && j != i && (o.len() == 0 || (j != o[0] && j
                    != o[o.len() - 1])) implies self.slots@[j] == mid.slots@[j] by {}
            assert forall|j: int| 0 <= j < old_self.slots.len() implies #[trigger] mid.items@[j]
                == old_self.items@[j] && mid.slots@[j].generation
                == old_self.slots@[j].generation by {}
            // order
            assert(no.no_duplicates()) by {
                assert forall|a: int, b: int|
                    0 <= a < no.len() && 0 <= b < no.len() && a != b implies no[a] != no[b] by {
                    if a < o.len() && b < o.len() {
                        assert(o[a] != o[b]);
                    } else if a < o.len() {
                        assert(o.contains(o[a]));
                    } else {
                        assert(o.contains(o[b]));
                    }
                }
            }
            assert forall|k: int| 0 <= k < no.len() implies #[trigger] no[k] < self.slots.len() by {
                if k < o.len() {
                    assert(o[k] < old_self.slots.len());
                }
            }
            // occupied
            assert forall|j: int| 0 <= j < self.slots.len() implies (
            #[trigger] self.items@[j] is Some <==> no.contains(j as usize)) by {
                if j == i {
                    assert(no[o.len() as int] == i);
                } else {
                    assert(self.items@[j] == old_self.items@[j]);
                    if o.contains(j as usize) {
                        let k = choose|k: int| 0 <= k < o.len() && o[k] == j as usize;
                        assert(no[k] == j as usize);
                    }
                    if no.contains(j as usize) {
                        let k = choose|k: int| 0 <= k < no.len() && no[k] == j as usize;
                        assert(o[k] == j as usize);
                    }
                }
            }
            // links
            assert forall|k: int| 0 <= k < no.len() implies #[trigger] self.slots@[no[k] as int].next
                == ring_next(no, k) by {
                if k < o.len() {
                    assert(o[k] != i);
                }
            }
            assert forall|k: int| 0 <= k < no.len() implies #[trigger] self.slots@[no[k] as int].prev
                == ring_prev(no, k) by {
                if k < o.len() {
                    assert(o[k] != i);
                }
            }
            // free
            assert forall|j: int| 0 <= j < self.free@.len() implies {
                &&& #[trigger] self.free@[j] < self.slots.len()
                &&& self.items@[self.free@[j] as int] is None
                &&& self.slots@[self.free@[j] as int].generation < u64::MAX
            } by {
                assert(old_self.free@.contains(self.free@[j]));
                let jj = choose|jj: int|
                    0 <= jj < old_self.free@.len() && old_self.free@[jj] == self.free@[j];
                assert(self.free@[j] != i) by {
                    if self.free@[j] == i {
                        assert(old_self.free@[old_self.free@.len() - 1] == i);
                        assert(jj == old_self.free@.len() - 1);
                        assert(j == jj);
                    }
                }
            }
            // issued
            assert forall|q: NodeRef| #[trigger] self.issued@.contains(q) implies q.index
                < self.slots.len() && q.generation <= self.slots@[q.index as int].generation by {
                if q != r {
                    assert(old_self.issued@.contains(q));
                }
            }
            assert forall|q: NodeRef|
                #[trigger] self.issued@.contains(q) && self.free@.contains(q.index) implies q.generation
                < self.slots@[q.index as int].generation by {
                if q == r {
                    let j = choose|j: int| 0 <= j < self.free@.len() && self.free@[j] == q.index;
                    assert(self.free@[j] != i);
                } else {
                    assert(old_self.issued@.contains(q));
                    let j = choose|j: int| 0 <= j < self.free@.len() && self.free@[j] == q.index;
                    assert(old_self.free@[j] == q.index);
                    assert(old_self.free@.contains(q.index));
                }
            }
            assert forall|k: int| 0 <= k < no.len() implies #[trigger] self.issued@.contains(
                self.node_at(k),
            ) by {
                if k < o.len() {
                    assert(o[k] != i);
                    assert(old_self.issued@.contains(old_self.node_at(k)));
                    assert(self.node_at(k) == old_self.node_at(k));
                } else {
                    assert(self.node_at(k) == r);
                }
            }
            assert(self.wf());
            assert(self.refs() =~= old_self.refs().push(r)) by {
                assert forall|k: int| 0 <= k < o.len() implies self.node_at(k) == old_self.node_at(k) by {
                    assert(o[k] != i);
                }
            }
            assert(self.values() =~= old_self.values().push(value)) by {
                assert forall|k: int| 0 <= k < o.len() implies self.items@[no[k] as int]
                    == old_self.items@[o[k] as int] by {
                    assert(o[k] != i);
                }
            }
            assert(self.flags() =~= old_self.flags().push(false)) by {
                assert forall|k: int| 0 <= k < o.len() implies self.slots@[no[k] as int].enqueued
                    == old_self.slots@[o[k] as int].enqueued by {
                    assert(o[k] != i);
                }
            }
        }
        r
    }
    /// Reference to the value with reference `r`, if it is stored.
    pub fn get(&self, r: NodeRef) -> (res: Option<&T>)
        requires
            self.wf(),
        ensures
            res is Some <==> self.contains(r),
            self.contains(r) ==> *res->0 == self.values()[self.position(r)],
    {
        proof {
            self.lemma_live(r);
        }
        if self.contains_node(r) {
            self.items[r.index].as_ref()
        } else {
            None
        }
    }

    /// Mutable reference to the value with reference `r`, if it is stored.
    pub fn get_mut(&mut self, r: NodeRef) -> (res: Option<&mut T>)
        requires
            old(self).wf(),
        ensures
            final(self).wf(),
            res is Some <==> old(self).contains(r),
            final(self).order() == old(self).order(),
            final(self).refs() == old(self).refs(),
            final(self).flags() == old(self).flags(),
            final(self).issued() == old(self).issued(),
            res matches Some(e) ==> {
                &&& *e == old(self).values()[old(self).position(r)]
                &&& final(self).values() == old(self).values().update(
                    old(self).position(r),
                    *final(e),
                )
            },
            res is None ==> final(self).values() == old(self).values(),
    {
        proof {
            self.lemma_live(r);
        }
        if self.contains_node(r) {
            self.items[r.index].as_mut()
        } else {
            None
        }
    }

    /// Queue mark of the value with reference `r`.
    pub fn is_enqueued(&self, r: NodeRef) -> (b: bool)
        requires
            self.wf(),
            self.contains(r),
        ensures
            b == self.flags()[self.position(r)],
    {
        proof {
            self.lemma_live(r);
        }
        self.slots[r.index].enqueued
    }

    /// Sets the queue mark of the value with reference `r`.
    pub fn set_enqueued(&mut self, r: NodeRef, mark: bool)
        requires
            old(self).wf(),
            old(self).contains(r),
        ensures
            final(self).wf(),
            final(self).refs() == old(self).refs(),
            final(self).values() == old(self).values(),
            final(self).issued() == old(self).issued(),
            final(self).flags() == old(self).flags().update(old(self).position(r), mark),
    {
        proof {
            self.lemma_live(r);
        }
        let ghost old_self = *self;
        let ghost k = self.position(r);
        self.slots[r.index].enqueued = mark;
        proof {
            assert forall|j: int| 0 <= j < self.slots.len() && j != r.index implies self.slots@[j]
                == old_self.slots@[j] by {}
            assert forall|j: int| 0 <= j < old_self.order@.len() && j != k implies old_self.order@[j]
                != r.index by {}
            assert(self.refs() =~= old_self.refs()) by {
                assert forall|j: int| 0 <= j < old_self.order@.len() implies self.node_at(j)
                    == old_self.node_at(j) by {}
            }
            assert(self.values() =~= old_self.values());
            assert(self.flags() =~= old_self.flags().update(k, mark));
            assert forall|j: int| 0 <= j < self.slots.len() implies (
            #[trigger] self.items@[j] is Some <==> self.order@.contains(j as usize)) by {
                assert(old_self.items@[j] is Some <==> old_self.order@.contains(j as usize));
            }
            assert forall|q: NodeRef| #[trigger] self.issued@.contains(q) implies q.index
                < self.slots.len() && q.generation <= self.slots@[q.index as int].generation by {
                assert(old_self.issued@.contains(q));
            }
            assert forall|k2: int| 0 <= k2 < self.order@.len() implies #[trigger] self.issued@.contains(
                self.node_at(k2),
            ) by {
                assert(self.node_at(k2) == old_self.node_at(k2));
            }
        }
    }
    /// Removes the value with reference `r`, if it is stored.
    #[verifier::rlimit(40)]
    pub fn remove(&mut self, r: NodeRef) -> (res: Option<Removed<T>>)
        requires
            old(self).wf(),
        ensures
            final(self).wf(),
            final(self).issued() == old(self).issued(),
            res is Some <==> old(self).contains(r),
            old(self).contains(r) ==> {
                let k = old(self).position(r);
                &&& res->0.spec_node() == r
                &&& res->0.spec_value() == old(self).values()[k]
                &&& final(self).refs() == old(self).refs().remove(k)
                &&& final(self).values() == old(self).values().remove(k)
                &&& final(self).flags() == old(self).flags().remove(k)
            },
            !old(self).contains(r) ==> {
                &&& final(self).refs() == old(self).refs()
                &&& final(self).values() == old(self).values()
                &&& final(self).flags() == old(self).flags()
            },
    {
        proof {
            self.lemma_live(r);
        }
        if !self.contains_node(r) {
            return None;
        }
        let ghost old_self = *self;
        let ghost o = self.order@;
        let ghost n = o.len() as int;
        let ghost k = self.position(r);
        let i = r.index;
        let prev = self.slots[i].prev;
        let next = self.slots[i].next;
        self.slots[prev].next = next;
        self.slots[next].prev = prev;
        let value = self.items[i].take();
        self.slots[i].enqueued = false;
        let g = self.slots[i].generation;
        if g < u64::MAX - 1 {
            self.slots[i].generation = g + 1;
            self.free.push(i);
        }
        self.len = self.len - 1;
        if self.len != 0 && self.front == i {
            self.front = next;
        }
        self.order = Ghost(o.remove(k));
        proof {
            let no = o.remove(k);
            o.remove_ensures(k);
            assert(self.order@ == no);
            assert(o[k] == i);
            let p = ring_prev(o, k);
            let x = ring_next(o, k);
            assert(prev == p && next == x);
            // which positions of `o` hold the neighbours
            let pk = if k == 0 { n - 1 } else { k - 1 };
            let xk = if k + 1 < n { k + 1 } else { 0 };
            assert(o[pk] == p && o[xk] == x);
            assert forall|a: int, b: int| 0 <= a < n && 0 <= b < n && o[a] == o[b] implies a == b by {}
            // slots that are neither the removed one nor a neighbour are untouched
            assert forall|j: int|
                0 <= j < self.slots.len() && j != i && j != p && j != x implies self.slots@[j]
                == old_self.slots@[j] by {}
            assert forall|j: int| 0 <= j < self.slots.len() implies #[trigger] self.items@[j]
                == (if j == i { None } else { old_self.items@[j] }) by {}
            assert forall|j: int| 0 <= j < self.slots.len() && j != i implies #[trigger] self.slots@[j].generation
                == old_self.slots@[j].generation && self.slots@[j].enqueued == old_self.slots@[j].enqueued by {}
            // positions of the new order
            let old_pos = |jp: int| if jp < k { jp } else { jp + 1 };
            assert forall|jp: int| 0 <= jp < n - 1 implies #[trigger] no[jp] == o[old_pos(jp)] by {}
            // order
            assert(no.no_duplicates());
            assert forall|kk: int| 0 <= kk < no.len() implies #[trigger] no[kk] < self.slots.len() by {
                assert(o[old_pos(kk)] < old_self.slots.len());
            }
            assert(!no.contains(i)) by {
                if no.contains(i) {
                    let jp = choose|jp: int| 0 <= jp < no.len() && no[jp] == i;
                    assert(o[old_pos(jp)] == o[k]);
                }
            }
            // occupied
            assert forall|j: int| 0 <= j < self.slots.len() implies (
            #[trigger] self.items@[j] is Some <==> no.contains(j as usize)) by {
                if j != i {
                    assert(old_self.items@[j] is Some <==> o.contains(j as usize));
                    if o.contains(j as usize) {
                        let a = choose|a: int| 0 <= a < n && o[a] == j as usize;
                        assert(a != k);
                        let jp = if a < k { a } else { a - 1 };
                        assert(no[jp] == j as usize);
                    }
                    if no.contains(j as usize) {
                        let jp = choose|jp: int| 0 <= jp < no.len() && no[jp] == j as usize;
                        assert(o[old_pos(jp)] == j as usize);
                    }
                }
            }
            // links
            if n > 1 {
                assert(p != i && x != i);
                lemma_ring_remove(o, old_self.slots@, self.slots@, k);
                assert(self.front == no[0]) by {
                    assert(no[0] == o[old_pos(0)]);
                }
            }
            // free
            assert forall|j: int| 0 <= j < self.free@.len() implies {
                &&& #[trigger] self.free@[j] < self.slots.len()
                &&& self.items@[self.free@[j] as int] is None
                &&& self.slots@[self.free@[j] as int].generation < u64::MAX
            } by {
                if j < old_self.free@.len() {
                    assert(old_self.free@[j] != i);
                }
            }
            assert(self.free@.no_duplicates()) by {
                if g < u64::MAX - 1 {
                    assert(!old_self.free@.contains(i)) by {
                        if old_self.free@.contains(i) {
                            let a = choose|a: int| 0 <= a < old_self.free@.len() && old_self.free@[a] == i;
                            assert(old_self.items@[old_self.free@[a] as int] is None);
                        }
                    }
                }
            }
            // issued
            assert forall|q: NodeRef| #[trigger] self.issued@.contains(q) implies q.index
                < self.slots.len() && q.generation <= self.slots@[q.index as int].generation by {
                assert(old_self.issued@.contains(q));
            }
            assert forall|q: NodeRef|
                #[trigger] self.issued@.contains(q) && self.free@.contains(q.index) implies q.generation
                < self.slots@[q.index as int].generation by {
                assert(old_self.issued@.contains(q));
                if q.index != i {
                    let a = choose|a: int| 0 <= a < self.free@.len() && self.free@[a] == q.index;
                    assert(a < old_self.free@.len());
                    assert(old_self.free@.contains(q.index));
                } else {
                    assert(g < u64::MAX - 1) by {
                        if g >= u64::MAX - 1 {
                            assert(self.free@ == old_self.free@);
                            assert(old_self.free@.contains(i));
                            let a = choose|a: int| 0 <= a < old_self.free@.len() && old_self.free@[a] == i;
                            assert(old_self.items@[old_self.free@[a] as int] is None);
                        }
                    }
                }
            }
            assert forall|kk: int|
                #![trigger no[kk]]
                0 <= kk < no.len() implies self.issued@.contains(self.node_at(kk)) by {
                let j = old_pos(kk);
                assert(o[j] != i);
                assert(old_self.issued@.contains(old_self.node_at(j)));
                assert(self.node_at(kk) == old_self.node_at(j));
            }
            assert(self.wf());
            assert(self.refs() =~= old_self.refs().remove(k)) by {
                assert forall|jp: int| 0 <= jp < n - 1 implies self.refs()[jp] == old_self.refs()[old_pos(jp)] by {
                    assert(o[old_pos(jp)] != i);
                }
            }
            assert(self.values() =~= old_self.values().remove(k)) by {
                assert forall|jp: int| 0 <= jp < n - 1 implies self.values()[jp] == old_self.values()[old_pos(jp)] by {
                    assert(o[old_pos(jp)] != i);
                }
            }
            assert(self.flags() =~= old_self.flags().remove(k)) by {
                assert forall|jp: int| 0 <= jp < n - 1 implies self.flags()[jp] == old_self.flags()[old_pos(jp)] by {
                    assert(o[old_pos(jp)] != i);
                }
            }
            assert(value == old_self.items@[i as int]);
            assert(old_self.values()[k] == old_self.items@[i as int]->0);
        }
        match value {
            Some(v) => Some(Removed { node: r, value: v }),
            None => None,
        }
    }
    /// The reference of position `k` names slot `order()[k]`.
    pub proof fn lemma_ref_index(&self, k: int)
        requires
            0 <= k < self.order().len(),
        ensures
            self.refs()[k].index == self.order()[k],
            self.refs().len() == self.order().len(),
            self.values().len() == self.order().len(),
            self.flags().len() == self.order().len(),
    {
    }

    /// The views have one entry per linked node.
    pub proof fn lemma_lens(&self)
        ensures
            self.refs().len() == self.order().len(),
            self.values().len() == self.order().len(),
            self.flags().len() == self.order().len(),
    {
    }

    /// Positions of the views after removing position `k`.
    pub proof fn list_remove_ensures(&self, k: int)
        requires
            0 <= k < self.refs().len(),
        ensures
            forall|j: int| 0 <= j < k ==> #[trigger] self.refs().remove(k)[j] == self.refs()[j],
            forall|j: int| k <= j < self.refs().len() - 1 ==> #[trigger] self.refs().remove(k)[j] == self.refs()[j + 1],
            forall|j: int| 0 <= j < k ==> #[trigger] self.flags().remove(k)[j] == self.flags()[j],
            forall|j: int| k <= j < self.flags().len() - 1 ==> #[trigger] self.flags().remove(k)[j] == self.flags()[j + 1],
            self.refs().remove(k).len() == self.refs().len() - 1,
            self.flags().remove(k).len() == self.flags().len() - 1,
    {
        self.refs().remove_ensures(k);
        self.flags().remove_ensures(k);
    }

    /// This list can stand for a list whose stored references were `nodes`, with
    /// queue marks `marks`, and which handed out `issued`: it is well formed, handed
    /// out the same references, and stores only references of `nodes`, each with its
    /// mark there.
    pub open spec fn fits_in(&self, nodes: Seq<NodeRef>, marks: Seq<bool>, issued: Set<NodeRef>) -> bool {
        &&& self.wf()
        &&& self.issued() == issued
        &&& forall|k: int|
            #![trigger self.refs()[k]]
            0 <= k < self.refs().len() ==> entry_in(nodes, marks, self.refs()[k], self.flags()[k])
    }

    /// A well-formed list fits its own references, marks and handed-out set.
    pub proof fn lemma_fits_itself(&self)
        requires
            self.wf(),
        ensures
            self.fits_in(self.refs(), self.flags(), self.issued()),
    {
        self.lemma_lens();
        assert forall|k: int|
            #![trigger self.refs()[k]]
            0 <= k < self.refs().len() implies entry_in(self.refs(), self.flags(), self.refs()[k], self.flags()[k]) by {
            assert(self.refs()[k] == self.refs()[k] && self.flags()[k] == self.flags()[k]);
        }
    }

    /// Removing the entry at position `i` keeps a list fitting what it fitted.
    pub proof fn lemma_fits_after_remove(
        &self,
        other: List<T>,
        i: int,
        nodes: Seq<NodeRef>,
        marks: Seq<bool>,
        issued: Set<NodeRef>,
    )
        requires
            self.fits_in(nodes, marks, issued),
            0 <= i < self.refs().len(),
            other.wf(),
            other.issued() == self.issued(),
            other.refs() == self.refs().remove(i),
            other.flags() == self.flags().remove(i),
        ensures
            other.fits_in(nodes, marks, issued),
    {
        self.lemma_lens();
        self.list_remove_ensures(i);
        assert forall|k: int|
            #![trigger other.refs()[k]]
            0 <= k < other.refs().len() implies entry_in(nodes, marks, other.refs()[k], other.flags()[k]) by {
            let kk = if k < i { k } else { k + 1 };
            assert(other.refs()[k] == self.refs()[kk]);
            assert(other.flags()[k] == self.flags()[kk]);
            assert(entry_in(nodes, marks, self.refs()[kk], self.flags()[kk]));
        }
    }

    /// The reference at position `k` was handed out by this list.
    pub proof fn lemma_issued_at(&self, k: int)
        requires
            self.wf(),
            0 <= k < self.refs().len(),
        ensures
            self.issued().contains(self.refs()[k]),
    {
    }

    /// Slot of the front node.
    pub(crate) fn front_slot(&self) -> (i: usize)
        requires
            self.wf(),
            self.order().len() > 0,
        ensures
            i == self.order()[0],
    {
        self.front
    }

    /// Slot of the back node.
    pub(crate) fn back_slot(&self) -> (i: usize)
        requires
            self.wf(),
            self.order().len() > 0,
        ensures
            i == self.order()[self.order().len() - 1],
    {
        self.slots[self.front].prev
    }

    /// Slot that follows position `k`, given the slot `i` at position `k`.
    pub(crate) fn next_slot(&self, i: usize, Ghost(k): Ghost<int>) -> (j: usize)
        requires
            self.wf(),
            0 <= k < self.order().len(),
            self.order()[k] == i,
        ensures
            j == ring_next(self.order(), k),
    {
        self.slots[i].next
    }

    /// Slot that precedes position `k`, given the slot `i` at position `k`.
    pub(crate) fn prev_slot(&self, i: usize, Ghost(k): Ghost<int>) -> (j: usize)
        requires
            self.wf(),
            0 <= k < self.order().len(),
            self.order()[k] == i,
        ensures
            j == ring_prev(self.order(), k),
    {
        self.slots[i].prev
    }

    /// Reference of the node at position `k`, given its slot `i`.
    pub(crate) fn ref_at_slot(&self, i: usize, Ghost(k): Ghost<int>) -> (r: NodeRef)
        requires
            self.wf(),
            0 <= k < self.order().len(),
            self.order()[k] == i,
        ensures
            r == self.refs()[k],
            self.position(r) == k,
            self.contains(r),
    {
        let r = NodeRef { index: i, generation: self.slots[i].generation };
        proof {
            assert(self.refs()[k] == r);
            self.lemma_live(r);
            self.lemma_refs_no_duplicates();
        }
        r
    }
}

} // verus!
