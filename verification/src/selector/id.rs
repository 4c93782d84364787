//! Identifiers of the tasks stored in a [`Selector`](crate::selector::Selector).
use vstd::prelude::*;

use std::marker::PhantomData;
use std::sync::Arc;

use crate::list::NodeRef;

use vstd::std_specs::cmp::PartialEqSpec;

verus! {

/// Address of the allocation behind `token`, read with `Arc::as_ptr`.
///
/// Nothing is stated of the address. The selector keeps a clone of the token in
/// itself and in each of its [`Id`]s, so the allocation, and with it the address,
/// cannot be handed to another selector while any of them is alive.
#[verifier::external_body]
pub(crate) fn allocation_address(token: &Arc<()>) -> usize {
    Arc::as_ptr(token) as usize
}

/// Unique ID of a task pushed into a [`Selector`](crate::selector::Selector).
///
/// It names the selector that stores the task (by the address of that selector's
/// token) and the task's place in it (a [`NodeRef`], which is never reused).
pub struct Id<T> {
    owner: usize,
    node: NodeRef,
    token: Arc<()>,
    task: PhantomData<T>,
}

impl<T> Id<T> {
    /// Key of the selector that issued this ID.
    pub closed spec fn spec_owner(&self) -> usize {
        self.owner
    }

    /// Place of the task in that selector.
    pub closed spec fn spec_node(&self) -> NodeRef {
        self.node
    }

    pub(crate) fn new(owner: usize, node: NodeRef, token: &Arc<()>) -> (id: Self)
        ensures
            id.spec_owner() == owner,
            id.spec_node() == node,
    {
        Id { owner, node, token: token.clone(), task: PhantomData }
    }

    /// Key of the selector that issued this ID.
    pub fn owner(&self) -> (r: usize)
        ensures
            r == self.spec_owner(),
    {
        self.owner
    }

    /// Place of the task in the selector.
    pub fn node(&self) -> (r: NodeRef)
        ensures
            r == self.spec_node(),
    {
        self.node
    }
}

impl<T> Clone for Id<T> {
    fn clone(&self) -> (r: Self)
        ensures
            r.spec_owner() == self.spec_owner(),
            r.spec_node() == self.spec_node(),
    {
        Id { owner: self.owner, node: self.node, token: self.token.clone(), task: PhantomData }
    }
}

impl<T> PartialEq for Id<T> {
    fn eq(&self, other: &Self) -> (r: bool) {
        self.owner == other.owner && self.node.index == other.node.index
            && self.node.generation == other.node.generation
    }
}

impl<T> vstd::std_specs::cmp::PartialEqSpecImpl for Id<T> {
    open spec fn obeys_eq_spec() -> bool {
        true
    }

    open spec fn eq_spec(&self, other: &Id<T>) -> bool {
        self.spec_owner() == other.spec_owner() && self.spec_node() == other.spec_node()
    }
}

impl<T> Eq for Id<T> {
}

/// `==` on IDs is identity of the task: it obeys its specification, and two IDs are
/// equal exactly when they name the same selector and the same place, the place's
/// generation included. So an ID of a removed task never equals the ID of a task
/// that later took over the same slot (which carries a newer generation).
pub proof fn law_id_eq<T>(a: Id<T>, b: Id<T>)
    ensures
        <Id<T> as PartialEqSpec>::obeys_eq_spec(),
        a.eq_spec(&b) <==> (a.spec_owner() == b.spec_owner() && a.spec_node().index
            == b.spec_node().index && a.spec_node().generation == b.spec_node().generation),
        a.eq_spec(&b) <==> b.eq_spec(&a),
        a.eq_spec(&a),
{
}

impl<T> std::hash::Hash for Id<T> {
    /// Hashes the selector key and the place, the two things `==` compares, with
    /// std's `Hash` for a tuple of them.
    #[verifier::external_body]
    fn hash<H: std::hash::Hasher>(&self, state: &mut H) {
        (self.owner, self.node).hash(state)
    }
}

} // verus!
