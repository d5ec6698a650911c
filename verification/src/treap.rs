//! The treap: a search tree by value that is a heap by priority.

use crate::data::Element;
use crate::order::{le, lemma_trichotomy, lt, total_order};
use crate::treap_node::{count_of, entries_of, heaped_of, sorted_of, Link, TreapNode};
use vstd::prelude::*;

verus! {

/// The Treap structure.
pub struct Treap<T: Ord, P: Ord> {
    root: Link<T, P>,
    size: usize,
}

/// One change to a treap.
pub enum Change<T: Ord, P: Ord> {
    /// The element is inserted.
    Insert(Element<T, P>),
    /// The element of this value is deleted.
    Delete(T),
}

impl<T: Ord, P: Ord> View for Treap<T, P> {
    type V = Map<T, P>;

    /// The priority of each value that the treap holds.
    closed spec fn view(&self) -> Map<T, P> {
        entries_of(self.root)
    }
}

impl<T: Ord, P: Ord> Default for Treap<T, P> {
    /// The treap without elements.
    fn default() -> (t: Self)
        ensures
            t == Self::blank(),
            t.wf(),
            t.heap_ordered(),
            t@ == Map::<T, P>::empty(),
            t.spec_size() == 0,
    {
        Self::new()
    }
}

impl<T: Ord, P: Ord> Treap<T, P> {
    /// The treap is a search tree by value: at every node, the values to the
    /// left sort before the node's value and the values to the right after
    /// it.
    pub closed spec fn ordered(self) -> bool {
        sorted_of(self.root)
    }

    /// The size that the treap keeps is its number of nodes.
    pub closed spec fn counted(self) -> bool {
        self.size == count_of(self.root)
    }

    /// The treap is a search tree by value and knows its size.
    pub open spec fn wf(self) -> bool {
        self.ordered() && self.counted()
    }

    /// No element of the treap sits below one of lower priority.
    pub closed spec fn heap_ordered(self) -> bool {
        heaped_of(self.root)
    }

    /// The tree that holds the elements.
    pub closed spec fn tree(self) -> Link<T, P> {
        self.root
    }

    /// The element at the root.
    pub closed spec fn top(self) -> Option<Element<T, P>> {
        match self.root {
            None => None,
            Some(r) => Some(r.element),
        }
    }

    /// The number of elements, as the treap counts them.
    pub closed spec fn spec_size(self) -> usize {
        self.size
    }

    /// The treap without elements.
    pub closed spec fn blank() -> Self {
        Treap { root: None, size: 0 }
    }

    /// The treap after `element` was inserted. The size that the treap keeps
    /// grows with a new value as long as it is below the largest number that
    /// a size can be.
    pub closed spec fn inserted(self, element: Element<T, P>) -> Self {
        match self.root {
            None => Treap { root: Some(Box::new(TreapNode::single(element))), size: 1 },
            Some(r) => Treap {
                root: Some(Box::new(r.inserted(TreapNode::single(element)))),
                size: if r.entries().contains_key(*element.value()) || self.size == usize::MAX {
                    self.size
                } else {
                    (self.size + 1) as usize
                },
            },
        }
    }

    /// The treap after the element with value `v` was deleted.
    pub closed spec fn deleted(self, v: T) -> Self {
        match self.root {
            None => self,
            Some(r) => if r.key() == v {
                Treap {
                    root: r.without_root(),
                    size: if r.leaf() {
                        0
                    } else {
                        (self.size - 1) as usize
                    },
                }
            } else {
                Treap {
                    root: Some(Box::new(r.without(v))),
                    size: if r.entries().contains_key(v) {
                        (self.size - 1) as usize
                    } else {
                        self.size
                    },
                }
            },
        }
    }

    /// The treap without elements is well-formed, in heap order and of size
    /// zero.
    pub proof fn lemma_blank()
        ensures
            Self::blank().wf(),
            Self::blank().heap_ordered(),
            Self::blank().spec_size() == 0,
            Self::blank()@ == Map::<T, P>::empty(),
            Self::blank().top() is None,
    {
    }

    /// A treap holds finitely many values.
    pub proof fn lemma_finite(self)
        requires
            total_order::<T>(),
            self.ordered(),
        ensures
            self@.dom().finite(),
    {
        if let Some(r) = self.root {
            r.lemma_count_is_len();
        }
    }

    /// A treap holds finitely many values, as many as it counts.
    pub proof fn lemma_size(self)
        requires
            total_order::<T>(),
            self.wf(),
        ensures
            self@.dom().finite(),
            self@.len() == self.spec_size(),
    {
        if let Some(r) = self.root {
            r.lemma_count_is_len();
        }
    }

    /// Only the empty treap has no root. The root is an element of the treap,
    /// and in heap order no element has a higher priority.
    pub proof fn lemma_top(self)
        ensures
            self.top() is None <==> self@ == Map::<T, P>::empty(),
            self.top() matches Some(m) ==> self@.contains_key(*m.value()) && self@[*m.value()]
                == *m.priority(),
            self.top() matches Some(m) ==> (total_order::<P>() && self.heap_ordered()
                ==> forall|k: T| #[trigger] self@.contains_key(k) ==> le(self@[k], *m.priority())),
    {
        if let Some(r) = self.root {
            assert(r.entries().contains_key(r.key()));
            if total_order::<P>() && self.heap_ordered() {
                r.lemma_root_is_highest();
            }
        }
    }

    /// Inserting into a search tree gives a search tree that holds the
    /// element's value with the element's priority, and every other value as
    /// before. The number of values grows by one exactly when the value is
    /// new, and so does the size that the treap keeps, as long as it is below
    /// the largest number that a size can be.
    pub proof fn lemma_inserted(self, element: Element<T, P>)
        requires
            total_order::<T>(),
            self.ordered(),
        ensures
            self.inserted(element).ordered(),
            self.inserted(element)@ == self@.insert(*element.value(), *element.priority()),
            self.inserted(element)@.len() == self@.len() + (if self@.contains_key(
                *element.value(),
            ) {
                0nat
            } else {
                1nat
            }),
            self.counted() && self.spec_size() < usize::MAX ==> self.inserted(element).counted()
                && self.inserted(element).spec_size() == self.spec_size() + (if self@.contains_key(
                *element.value(),
            ) {
                0nat
            } else {
                1nat
            }),
    {
        self.lemma_finite();
        let node = TreapNode::single(element);
        match self.root {
            None => {
                assert(node.sorted());
                assert(node.count() == 1);
                assert(node.entries() =~= self@.insert(*element.value(), *element.priority()));
            },
            Some(r) => {
                r.lemma_inserted(node);
            },
        }
    }

    /// Inserting into a treap in heap order gives a treap in heap order.
    pub proof fn lemma_inserted_heap_ordered(self, element: Element<T, P>)
        requires
            total_order::<P>(),
            self.heap_ordered(),
        ensures
            self.inserted(element).heap_ordered(),
    {
        let node = TreapNode::single(element);
        match self.root {
            None => {
                assert(node.heaped());
            },
            Some(r) => {
                r.lemma_inserted_heaped(node);
            },
        }
    }

    /// Deleting from a search tree gives a search tree without the value, and
    /// with every other value as before; in heap order if the treap was, and
    /// with the right size if the treap had it. Deleting a value that the
    /// treap does not hold changes nothing at all.
    pub proof fn lemma_deleted(self, v: T)
        requires
            total_order::<T>(),
            total_order::<P>(),
            self.ordered(),
        ensures
            self.deleted(v).ordered(),
            self.deleted(v)@ == self@.remove(v),
            self.counted() ==> self.deleted(v).counted() && self.deleted(v).spec_size() + (
            if self@.contains_key(v) {
                1nat
            } else {
                0nat
            }) == self.spec_size(),
            self.heap_ordered() ==> self.deleted(v).heap_ordered(),
            !self@.contains_key(v) ==> self.deleted(v) == self,
    {
        match self.root {
            None => {
                assert(self@.remove(v) =~= self@);
            },
            Some(r) => {
                assert(r.entries().contains_key(r.key()));
                if r.key() == v {
                    r.lemma_without_root();
                    if r.heaped() {
                        r.lemma_without_root_heaped();
                    }
                } else {
                    r.lemma_without(v);
                    if r.heaped() {
                        r.lemma_without_heaped(v);
                    }
                }
            },
        }
    }

    /// The treap after the elements of `batch` were inserted in turn.
    pub open spec fn inserted_all(self, batch: Seq<Element<T, P>>) -> Self
        decreases batch.len(),
    {
        if batch.len() == 0 {
            self
        } else {
            self.inserted_all(batch.drop_last()).inserted(batch.last())
        }
    }

    /// Whether an element of `batch` has the value `k`.
    pub open spec fn mentions(batch: Seq<Element<T, P>>, k: T) -> bool {
        exists|j: int| 0 <= j < batch.len() && *(#[trigger] batch[j]).value() == k
    }

    /// After a batch of insertions a search tree is a search tree and holds
    /// the values that it held and those of the batch, and no other. It has
    /// the right size, if it had before and the batch leaves the size within
    /// what a size can be.
    pub proof fn lemma_inserted_all(self, batch: Seq<Element<T, P>>)
        requires
            total_order::<T>(),
            self.ordered(),
        ensures
            self.inserted_all(batch).ordered(),
            self.counted() && self.spec_size() + batch.len() <= usize::MAX ==> self.inserted_all(
                batch,
            ).counted() && self.inserted_all(batch).spec_size() <= self.spec_size() + batch.len(),
            forall|k: T| #[trigger]
                self.inserted_all(batch)@.contains_key(k) <==> self@.contains_key(k)
                    || Self::mentions(batch, k),
        decreases batch.len(),
    {
        if batch.len() > 0 {
            let rest = batch.drop_last();
            let last = batch.last();
            self.lemma_inserted_all(rest);
            let prev = self.inserted_all(rest);
            prev.lemma_inserted(last);
            assert forall|k: T| #[trigger]
                self.inserted_all(batch)@.contains_key(k) <==> self@.contains_key(k)
                    || Self::mentions(batch, k) by {
                if Self::mentions(batch, k) {
                    let j = choose|j: int| 0 <= j < batch.len() && *(#[trigger] batch[j]).value() == k;
                    if j < rest.len() {
                        assert(rest[j] == batch[j]);
                        assert(Self::mentions(rest, k));
                    }
                }
                if Self::mentions(rest, k) {
                    let j = choose|j: int| 0 <= j < rest.len() && *(#[trigger] rest[j]).value() == k;
                    assert(batch[j] == rest[j]);
                }
                if k == *last.value() {
                    assert(batch[batch.len() - 1] == last);
                }
            }
        }
    }

    /// What was inserted is found again: after a batch of insertions the
    /// treap holds the value of each element of the batch, with the priority
    /// that the value was last inserted with.
    pub proof fn lemma_round_trip(self, batch: Seq<Element<T, P>>, i: int)
        requires
            total_order::<T>(),
            self.ordered(),
            0 <= i < batch.len(),
            forall|j: int| i < j < batch.len() ==> (#[trigger] batch[j]).value() != batch[i].value(),
        ensures
            self.inserted_all(batch)@.contains_key(*batch[i].value()),
            self.inserted_all(batch)@[*batch[i].value()] == *batch[i].priority(),
        decreases batch.len(),
    {
        let rest = batch.drop_last();
        let last = batch.last();
        self.lemma_inserted_all(rest);
        let prev = self.inserted_all(rest);
        prev.lemma_inserted(last);
        if i < batch.len() - 1 {
            assert(rest[i] == batch[i]);
            assert forall|j: int| i < j < rest.len() implies (#[trigger] rest[j]).value()
                != rest[i].value() by {
                assert(rest[j] == batch[j]);
            }
            self.lemma_round_trip(rest, i);
            assert(batch[batch.len() - 1].value() != batch[i].value());
        }
    }

    /// A batch of values that are new to the treap and differ from each other
    /// makes the treap grow by the length of the batch.
    pub proof fn lemma_inserted_all_new(self, batch: Seq<Element<T, P>>)
        requires
            total_order::<T>(),
            self.ordered(),
            forall|j: int| 0 <= j < batch.len() ==> !self@.contains_key(*(#[trigger] batch[j]).value()),
            forall|i: int, j: int|
                0 <= i < j < batch.len() ==> (#[trigger] batch[i]).value() != (
                #[trigger] batch[j]).value(),
        ensures
            self.inserted_all(batch)@.len() == self@.len() + batch.len(),
            self.counted() && self.spec_size() + batch.len() <= usize::MAX ==> self.inserted_all(
                batch,
            ).spec_size() == self.spec_size() + batch.len(),
        decreases batch.len(),
    {
        if batch.len() > 0 {
            let rest = batch.drop_last();
            let last = batch.last();
            assert forall|j: int| 0 <= j < rest.len() implies !self@.contains_key(
                *(#[trigger] rest[j]).value(),
            ) by {
                assert(rest[j] == batch[j]);
            }
            assert forall|i: int, j: int| 0 <= i < j < rest.len() implies (#[trigger] rest[i]).value()
                != (#[trigger] rest[j]).value() by {
                assert(rest[i] == batch[i]);
                assert(rest[j] == batch[j]);
            }
            self.lemma_inserted_all_new(rest);
            self.lemma_inserted_all(rest);
            let prev = self.inserted_all(rest);
            prev.lemma_inserted(last);
            assert(!prev@.contains_key(*last.value())) by {
                assert(batch[batch.len() - 1] == last);
                if Self::mentions(rest, *last.value()) {
                    let j = choose|j: int|
                        0 <= j < rest.len() && *(#[trigger] rest[j]).value() == *last.value();
                    assert(rest[j] == batch[j]);
                }
            }
        }
    }

    /// The treap after one change.
    pub open spec fn changed(self, change: Change<T, P>) -> Self {
        match change {
            Change::Insert(e) => self.inserted(e),
            Change::Delete(v) => self.deleted(v),
        }
    }

    /// The treap after the changes of a sequence, in turn.
    pub open spec fn changed_all(self, changes: Seq<Change<T, P>>) -> Self
        decreases changes.len(),
    {
        if changes.len() == 0 {
            self
        } else {
            self.changed_all(changes.drop_last()).changed(changes.last())
        }
    }

    /// Whatever is inserted and deleted, a search tree stays a search tree,
    /// and a treap in heap order stays in heap order. The size that the
    /// treap keeps stays its number of nodes, as long as the changes leave
    /// it within what a size can be.
    pub proof fn lemma_changed_all(self, changes: Seq<Change<T, P>>)
        requires
            total_order::<T>(),
            total_order::<P>(),
            self.ordered(),
        ensures
            self.changed_all(changes).ordered(),
            self.heap_ordered() ==> self.changed_all(changes).heap_ordered(),
            self.counted() && self.spec_size() + changes.len() <= usize::MAX ==> self.changed_all(
                changes,
            ).counted() && self.changed_all(changes).spec_size() <= self.spec_size()
                + changes.len(),
        decreases changes.len(),
    {
        if changes.len() > 0 {
            let before = self.changed_all(changes.drop_last());
            self.lemma_changed_all(changes.drop_last());
            match changes.last() {
                Change::Insert(e) => {
                    before.lemma_inserted(e);
                    if self.heap_ordered() {
                        before.lemma_inserted_heap_ordered(e);
                    }
                },
                Change::Delete(v) => {
                    before.lemma_deleted(v);
                },
            }
        }
    }

    /// Create a new Treap.
    pub fn new() -> (t: Treap<T, P>)
        ensures
            t == Self::blank(),
            t.wf(),
            t.heap_ordered(),
            t@ == Map::<T, P>::empty(),
            t.spec_size() == 0,
    {
        Treap { root: None, size: 0 }
    }

    /// Make `root` the only element of the tree.
    fn set_root(&mut self, root: Element<T, P>)
        ensures
            final(self).root == Some(Box::new(TreapNode::single(root))),
            final(self).size == old(self).size,
    {
        self.root = Some(Box::new(root.into()));
    }

    /// Reset the Treap, removing all items.
    pub fn reset(&mut self)
        ensures
            *final(self) == Self::blank(),
            final(self).wf(),
            final(self).heap_ordered(),
            final(self)@ == Map::<T, P>::empty(),
            final(self).spec_size() == 0,
    {
        self.root = None;
        self.size = 0;
    }

    /// Insert (or update) an item. The size grows by one with a new value;
    /// a tree cannot have more nodes than a size can count, and at that
    /// bound the size would stay as it is.
    pub fn insert(&mut self, element: Element<T, P>)
        requires
            total_order::<T>(),
            total_order::<P>(),
            old(self).ordered(),
        ensures
            *final(self) == old(self).inserted(element),
            final(self).ordered(),
            final(self)@ == old(self)@.insert(*element.value(), *element.priority()),
            old(self).heap_ordered() ==> final(self).heap_ordered(),
            old(self).counted() && old(self).spec_size() < usize::MAX ==> final(self).counted()
                && final(self).spec_size() == old(self).spec_size() + (if old(self)@.contains_key(
                *element.value(),
            ) {
                0nat
            } else {
                1nat
            }),
    {
        proof {
            old(self).lemma_inserted(element);
            if old(self).heap_ordered() {
                old(self).lemma_inserted_heap_ordered(element);
            }
        }
        match &mut self.root {
            None => {
                self.set_root(element);
                self.size = 1;
            },
            Some(e) => {
                if e.insert_or_replace(element.into()) {
                    if self.size < usize::MAX {
                        self.size += 1;
                    }
                }
            },
        }
    }

    /// Get the element with the highest priority, otherwise return `None`.
    pub fn get_max(&self) -> (max: Option<&Element<T, P>>)
        ensures
            max == match self.top() {
                None => None,
                Some(m) => Some(&m),
            },
            max is None <==> self@ == Map::<T, P>::empty(),
            max matches Some(m) ==> self@.contains_key(*m.value()) && self@[*m.value()]
                == *m.priority(),
            max matches Some(m) ==> (total_order::<P>() && self.heap_ordered() ==> forall|k: T| #[trigger]
                self@.contains_key(k) ==> le(self@[k], *m.priority())),
    {
        proof {
            self.lemma_top();
        }
        match &self.root {
            None => None,
            Some(n) => Some(&n.element),
        }
    }

    /// Get an element whose value is `e` if it exists, otherwise return `None`.
    pub fn get(&self, e: T) -> (found: Option<&Element<T, P>>)
        requires
            total_order::<T>(),
            self.ordered(),
        ensures
            found == (if self@.contains_key(e) {
                Some(&Element::of(e, self@[e]))
            } else {
                None
            }),
            found matches Some(x) ==> *x.value() == e && *x.priority() == self@[e],
    {
        match &self.root {
            None => None,
            Some(n) => n.get(e),
        }
    }

    /// Delete element whose value is `e`.
    pub fn delete(&mut self, e: T)
        requires
            total_order::<T>(),
            total_order::<P>(),
            old(self).wf(),
        ensures
            *final(self) == old(self).deleted(e),
            final(self).wf(),
            final(self)@ == old(self)@.remove(e),
            final(self).spec_size() + (if old(self)@.contains_key(e) {
                1nat
            } else {
                0nat
            }) == old(self).spec_size(),
            old(self).heap_ordered() ==> final(self).heap_ordered(),
    {
        proof {
            old(self).lemma_deleted(e);
            if let Some(r) = old(self).root {
                r.lemma_rotation_keeps_order();
                r.lemma_count_is_len();
                if let Some(l) = r.left {
                    assert(entries_of(r.left).contains_key(l.key()));
                    lemma_trichotomy(l.key(), r.key());
                    if let Some(q) = r.right {
                        lemma_trichotomy(l.rank(), q.rank());
                    }
                }
                if let Some(q) = r.right {
                    assert(entries_of(r.right).contains_key(q.key()));
                    lemma_trichotomy(q.key(), r.key());
                }
            }
        }
        match &mut self.root {
            None => {},
            Some(r) => {
                let deleted = if *r.element.value() == e {
                    if r.left.is_none() && r.right.is_none() {
                        self.reset();
                        false
                    } else if r.left.is_none() && r.right.is_some() {
                        r.rotate_left();
                        r.delete(&e)
                    } else if r.right.is_none() && r.left.is_some() {
                        r.rotate_right();
                        r.delete(&e)
                    } else {
                        let p_left = r.left.as_ref().unwrap().element.priority();
                        let p_right = r.right.as_ref().unwrap().element.priority();
                        if p_left < p_right {
                            r.rotate_left();
                            r.delete(&e)
                        } else {
                            r.rotate_right();
                            r.delete(&e)
                        }
                    }
                } else {
                    r.delete(&e)
                };
                if deleted {
                    self.size -= 1;
                }
            },
        }
    }

    /// The node at the root, for walking the tree.
    pub fn root(&self) -> (node: Option<&TreapNode<T, P>>)
        ensures
            node == match self.tree() {
                None => None,
                Some(n) => Some(&*n),
            },
            match node {
                None => self@ == Map::<T, P>::empty(),
                Some(n) => n.entries() == self@ && Some(n.element) == self.top() && (
                self.ordered() ==> n.sorted()) && (self.counted() ==> n.count()
                    == self.spec_size()) && (self.heap_ordered() ==> n.heaped()),
            },
    {
        match &self.root {
            None => None,
            Some(n) => Some(&**n),
        }
    }

    /// Get the number of elements in `self`.
    pub fn size(&self) -> (n: usize)
        ensures
            n == self.spec_size(),
            total_order::<T>() && self.wf() ==> n == self@.len(),
    {
        proof {
            if total_order::<T>() && self.wf() {
                self.lemma_size();
            }
        }
        self.size
    }

    /// Whether the treap is in heap order.
    pub fn maintains_heap(&self) -> (ok: bool)
        requires
            total_order::<P>(),
        ensures
            ok == self.heap_ordered(),
    {
        match &self.root {
            None => true,
            Some(r) => r.maintains_heap(),
        }
    }
}

} // verus!
