//! The nodes of a treap, and the rotations that keep it in order.

use crate::data::Element;
use crate::order::{le, lemma_lt_irreflexive, lemma_lt_transitive, lemma_trichotomy, lt, total_order};
use core::cmp::Ordering;
use vstd::prelude::*;

verus! {

/// A subtree that may be absent.
pub type Link<T, P> = Option<Box<TreapNode<T, P>>>;

/// The two sides of a node.
pub enum TreapChild {
    Left,
    Right,
}

/// One node of a treap: an element and the two subtrees below it.
pub struct TreapNode<T: Ord, P: Ord> {
    pub element: Element<T, P>,
    pub left: Link<T, P>,
    pub right: Link<T, P>,
}

/// The priorities of the subtree below `link`, by value.
pub open spec fn entries_of<T: Ord, P: Ord>(link: Link<T, P>) -> Map<T, P> {
    match link {
        None => Map::empty(),
        Some(n) => n.entries(),
    }
}

/// The number of nodes of the subtree below `link`.
pub open spec fn count_of<T: Ord, P: Ord>(link: Link<T, P>) -> nat {
    match link {
        None => 0,
        Some(n) => n.count(),
    }
}

/// Whether the subtree below `link` is a search tree by value.
pub open spec fn sorted_of<T: Ord, P: Ord>(link: Link<T, P>) -> bool {
    match link {
        None => true,
        Some(n) => n.sorted(),
    }
}

/// Whether no node of the subtree below `link` has a child of higher priority.
pub open spec fn heaped_of<T: Ord, P: Ord>(link: Link<T, P>) -> bool {
    match link {
        None => true,
        Some(n) => n.heaped(),
    }
}

/// Whether the root of `link`, if there is one, has at most priority `p`.
pub open spec fn capped<T: Ord, P: Ord>(link: Link<T, P>, p: P) -> bool {
    match link {
        None => true,
        Some(c) => le(c.rank(), p),
    }
}

impl<T: Ord, P: Ord> TreapNode<T, P> {
    /// The value at the root.
    pub open spec fn key(self) -> T {
        *self.element.value()
    }

    /// The priority at the root.
    pub open spec fn rank(self) -> P {
        *self.element.priority()
    }

    /// The priorities of this tree, by value.
    pub open spec fn entries(self) -> Map<T, P>
        decreases self,
    {
        let below_left = match self.left {
            None => Map::empty(),
            Some(l) => l.entries(),
        };
        let below_right = match self.right {
            None => Map::empty(),
            Some(r) => r.entries(),
        };
        below_left.union_prefer_right(below_right).insert(self.key(), self.rank())
    }

    /// The number of nodes of this tree.
    pub open spec fn count(self) -> nat
        decreases self,
    {
        let below_left = match self.left {
            None => 0nat,
            Some(l) => l.count(),
        };
        let below_right = match self.right {
            None => 0nat,
            Some(r) => r.count(),
        };
        1 + below_left + below_right
    }

    /// The search-tree order: at every node, what is to the left sorts before
    /// the node's value and what is to the right sorts after it.
    pub open spec fn sorted(self) -> bool
        decreases self,
    {
        &&& match self.left {
            None => true,
            Some(l) => l.sorted(),
        }
        &&& match self.right {
            None => true,
            Some(r) => r.sorted(),
        }
        &&& forall|k: T| #[trigger] entries_of(self.left).contains_key(k) ==> lt(k, self.key())
        &&& forall|k: T| #[trigger] entries_of(self.right).contains_key(k) ==> lt(self.key(), k)
    }

    /// The heap order: no node has a child of higher priority.
    pub open spec fn heaped(self) -> bool
        decreases self,
    {
        &&& match self.left {
            None => true,
            Some(l) => l.heaped(),
        }
        &&& match self.right {
            None => true,
            Some(r) => r.heaped(),
        }
        &&& capped(self.left, self.rank())
        &&& capped(self.right, self.rank())
    }

    /// The tree after a right rotation: the left child, if there is one,
    /// becomes the root, and the former root its right child.
    pub open spec fn rotated_right(self) -> Self {
        match self.left {
            None => self,
            Some(l) => TreapNode {
                element: l.element,
                left: l.left,
                right: Some(
                    Box::new(TreapNode { element: self.element, left: l.right, right: self.right }),
                ),
            },
        }
    }

    /// The tree after a left rotation: the right child, if there is one,
    /// becomes the root, and the former root its left child.
    pub open spec fn rotated_left(self) -> Self {
        match self.right {
            None => self,
            Some(r) => TreapNode {
                element: r.element,
                left: Some(
                    Box::new(TreapNode { element: self.element, left: self.left, right: r.left }),
                ),
                right: r.right,
            },
        }
    }

    /// A rotation moves no element in or out and keeps the search-tree order.
    pub proof fn lemma_rotation_keeps_order(self)
        requires
            total_order::<T>(),
            self.sorted(),
        ensures
            self.rotated_right().sorted(),
            self.rotated_right().entries() == self.entries(),
            self.rotated_right().count() == self.count(),
            self.rotated_left().sorted(),
            self.rotated_left().entries() == self.entries(),
            self.rotated_left().count() == self.count(),
    {
        reveal_with_fuel(TreapNode::count, 3);
        reveal_with_fuel(TreapNode::entries, 3);
        let x = self.key();
        if let Some(l) = self.left {
            let down = TreapNode { element: self.element, left: l.right, right: self.right };
            let up = self.rotated_right();
            assert(l.sorted());
            assert(entries_of(self.left) == l.entries());
            assert(entries_of(self.left).contains_key(l.key()));
            assert forall|k: T| #[trigger] entries_of(l.right).contains_key(k) implies lt(k, x) by {
                assert(entries_of(self.left).contains_key(k));
            }
            assert(down.sorted());
            assert(lt(l.key(), x));
            assert forall|k: T| #[trigger] down.entries().contains_key(k) implies lt(l.key(), k) by {
                if k == x {
                } else if entries_of(l.right).contains_key(k) {
                    assert(lt(l.key(), k));
                } else {
                    assert(entries_of(self.right).contains_key(k));
                    lemma_lt_transitive(l.key(), x, k);
                }
            }
            assert(up.sorted());
            assert forall|k: T| #[trigger] entries_of(l.left).contains_key(k) implies lt(k, x) by {
                assert(entries_of(self.left).contains_key(k));
            }
            assert forall|k: T| self.entries().contains_key(k) implies up.entries()[k]
                == self.entries()[k] by {
                lemma_trichotomy(k, x);
                lemma_trichotomy(k, l.key());
                lemma_trichotomy(x, l.key());
                if entries_of(self.right).contains_key(k) {
                    lemma_lt_transitive(l.key(), x, k);
                    lemma_trichotomy(l.key(), k);
                }
                if entries_of(l.left).contains_key(k) {
                    lemma_lt_transitive(k, l.key(), x);
                }
            }
            assert(up.entries() =~= self.entries());
        }
        if let Some(r) = self.right {
            let down = TreapNode { element: self.element, left: self.left, right: r.left };
            let up = self.rotated_left();
            assert(r.sorted());
            assert(entries_of(self.right) == r.entries());
            assert(entries_of(self.right).contains_key(r.key()));
            assert forall|k: T| #[trigger] entries_of(r.left).contains_key(k) implies lt(x, k) by {
                assert(entries_of(self.right).contains_key(k));
            }
            assert(down.sorted());
            assert(lt(x, r.key()));
            assert forall|k: T| #[trigger] down.entries().contains_key(k) implies lt(k, r.key()) by {
                if k == x {
                } else if entries_of(r.left).contains_key(k) {
                    assert(lt(k, r.key()));
                } else {
                    assert(entries_of(self.left).contains_key(k));
                    lemma_lt_transitive(k, x, r.key());
                }
            }
            assert(up.sorted());
            assert forall|k: T| #[trigger] entries_of(r.right).contains_key(k) implies lt(x, k) by {
                assert(entries_of(self.right).contains_key(k));
            }
            assert forall|k: T| self.entries().contains_key(k) implies up.entries()[k]
                == self.entries()[k] by {
                lemma_trichotomy(k, x);
                lemma_trichotomy(k, r.key());
                lemma_trichotomy(x, r.key());
                if entries_of(self.left).contains_key(k) {
                    lemma_lt_transitive(k, x, r.key());
                    lemma_trichotomy(k, r.key());
                }
                if entries_of(r.right).contains_key(k) {
                    lemma_lt_transitive(x, r.key(), k);
                }
            }
            assert(up.entries() =~= self.entries());
        }
    }

    /// Rotate the tree right.
    pub fn rotate_right(&mut self)
        ensures
            *final(self) == old(self).rotated_right(),
    {
        let l = self.left.take();
        if let Some(mut p) = l {
            core::mem::swap(self, &mut *p);
            core::mem::swap(&mut self.right, &mut p.left);
            self.right = Some(p);
        }
    }

    /// Rotate the tree left.
    pub fn rotate_left(&mut self)
        ensures
            *final(self) == old(self).rotated_left(),
    {
        let r = self.right.take();
        if let Some(mut q) = r {
            core::mem::swap(self, &mut *q);
            core::mem::swap(&mut self.left, &mut q.right);
            self.left = Some(q);
        }
    }

    /// Rotate the tree right: `rotate_right` under its other name.
    pub fn right_rotate(&mut self)
        ensures
            *final(self) == old(self).rotated_right(),
    {
        self.rotate_right()
    }

    /// Rotate the tree left: `rotate_left` under its other name.
    pub fn left_rotate(&mut self)
        ensures
            *final(self) == old(self).rotated_left(),
    {
        self.rotate_left()
    }

    /// Check heap property holds between this node and the root of `n`: the
    /// root of `n`, if there is one, may not have a higher priority.
    pub fn heap_check(&self, n: &Link<T, P>) -> (ok: bool)
        requires
            total_order::<P>(),
        ensures
            ok == capped(*n, self.rank()),
    {
        if let Some(node) = n {
            node.element.priority() <= self.element.priority()
        } else {
            true
        }
    }

    /// The tree of one element.
    pub open spec fn single(element: Element<T, P>) -> Self {
        TreapNode { element, left: None, right: None }
    }

    /// A tree of this one element.
    pub open spec fn leaf(self) -> bool {
        self.left is None && self.right is None
    }

    /// This node with its left subtree exchanged.
    pub open spec fn with_left(self, link: Link<T, P>) -> Self {
        TreapNode { element: self.element, left: link, right: self.right }
    }

    /// This node with its right subtree exchanged.
    pub open spec fn with_right(self, link: Link<T, P>) -> Self {
        TreapNode { element: self.element, left: self.left, right: link }
    }

    /// This tree, rotated right if its left child has the higher priority.
    pub open spec fn settled_left(self) -> Self {
        if capped(self.left, self.rank()) {
            self
        } else {
            self.rotated_right()
        }
    }

    /// This tree, rotated left if its right child has the higher priority.
    pub open spec fn settled_right(self) -> Self {
        if capped(self.right, self.rank()) {
            self
        } else {
            self.rotated_left()
        }
    }

    /// This tree with its root sunk to where it belongs in heap order: as long
    /// as a child has a higher priority than the root, the child of higher
    /// priority is lifted above it, the left one where both have the same,
    /// and the sinking goes on below.
    pub open spec fn sunk(self) -> Self
        decreases self.count(),
    {
        if capped(self.left, self.rank()) && capped(self.right, self.rank()) {
            self
        } else if self.lifts_right() {
            let up = self.rotated_left();
            proof {
                reveal_with_fuel(TreapNode::count, 3);
            }
            up.with_left(
                match up.left {
                    None => None,
                    Some(down) => Some(Box::new(down.sunk())),
                },
            )
        } else {
            let up = self.rotated_right();
            proof {
                reveal_with_fuel(TreapNode::count, 3);
            }
            up.with_right(
                match up.right {
                    None => None,
                    Some(down) => Some(Box::new(down.sunk())),
                },
            )
        }
    }

    /// Sinking the root moves no element in or out and keeps the search-tree
    /// order.
    pub proof fn lemma_sunk(self)
        requires
            total_order::<T>(),
            self.sorted(),
        ensures
            self.sunk().sorted(),
            self.sunk().entries() == self.entries(),
            self.sunk().count() == self.count(),
        decreases self.count(),
    {
        reveal_with_fuel(TreapNode::count, 3);
        self.lemma_rotation_keeps_order();
        if capped(self.left, self.rank()) && capped(self.right, self.rank()) {
        } else if self.lifts_right() {
            let up = self.rotated_left();
            let down = *up.left.unwrap();
            assert(down.sorted());
            assert(entries_of(up.left) == down.entries());
            down.lemma_sunk();
            let res = up.with_left(Some(Box::new(down.sunk())));
            assert(self.sunk() == res);
            assert(entries_of(res.left) == entries_of(up.left));
            assert(res.sorted());
            assert(up.entries() == entries_of(up.left).union_prefer_right(
                entries_of(up.right),
            ).insert(up.key(), up.rank()));
            assert(res.entries() == entries_of(res.left).union_prefer_right(
                entries_of(up.right),
            ).insert(up.key(), up.rank()));
        } else {
            let up = self.rotated_right();
            let down = *up.right.unwrap();
            assert(down.sorted());
            assert(entries_of(up.right) == down.entries());
            down.lemma_sunk();
            let res = up.with_right(Some(Box::new(down.sunk())));
            assert(self.sunk() == res);
            assert(entries_of(res.right) == entries_of(up.right));
            assert(res.sorted());
            assert(up.entries() == entries_of(up.left).union_prefer_right(
                entries_of(up.right),
            ).insert(up.key(), up.rank()));
            assert(res.entries() == entries_of(up.left).union_prefer_right(
                entries_of(res.right),
            ).insert(up.key(), up.rank()));
        }
    }

    /// Where both subtrees are in heap order, sinking the root puts the whole
    /// tree in heap order. A root that no child outranks stays; else the new
    /// root is the root of one of the subtrees.
    pub proof fn lemma_sunk_heaped(self)
        requires
            total_order::<P>(),
            heaped_of(self.left),
            heaped_of(self.right),
        ensures
            self.sunk().heaped(),
            capped(self.left, self.rank()) && capped(self.right, self.rank()) ==> self.sunk()
                == self,
            !(capped(self.left, self.rank()) && capped(self.right, self.rank())) ==> (self.left
                is Some && self.sunk().element == self.left.unwrap().element) || (self.right
                is Some && self.sunk().element == self.right.unwrap().element),
        decreases self.count(),
    {
        reveal_with_fuel(TreapNode::count, 3);
        let p = self.rank();
        lemma_lt_irreflexive(p);
        if capped(self.left, p) && capped(self.right, p) {
        } else if self.lifts_right() {
            let r = self.right.unwrap();
            let up = self.rotated_left();
            let down = *up.left.unwrap();
            assert(r.heaped());
            lemma_trichotomy(p, r.rank());
            if let Some(l) = self.left {
                lemma_trichotomy(l.rank(), r.rank());
                lemma_trichotomy(p, l.rank());
                lemma_lt_transitive(p, l.rank(), r.rank());
            }
            down.lemma_sunk_heaped();
            let res = up.with_left(Some(Box::new(down.sunk())));
            assert(self.sunk() == res);
            assert(le(down.sunk().rank(), r.rank()));
            assert(res.heaped());
        } else {
            let l = self.left.unwrap();
            let up = self.rotated_right();
            let down = *up.right.unwrap();
            assert(l.heaped());
            lemma_trichotomy(p, l.rank());
            if let Some(r) = self.right {
                lemma_trichotomy(l.rank(), r.rank());
                lemma_trichotomy(p, r.rank());
                lemma_lt_transitive(p, r.rank(), l.rank());
            }
            down.lemma_sunk_heaped();
            let res = up.with_right(Some(Box::new(down.sunk())));
            assert(self.sunk() == res);
            assert(le(down.sunk().rank(), l.rank()));
            assert(res.heaped());
        }
    }

    /// This tree with `e` in the place of the root's element, and that
    /// element then sunk to where it belongs in heap order.
    pub open spec fn replaced(self, e: Element<T, P>) -> Self {
        TreapNode { element: e, left: self.left, right: self.right }.sunk()
    }

    /// This tree after `node` was inserted: where its value is found, the
    /// element there is replaced and sunk; otherwise `node` becomes a leaf at
    /// the place where the search ends. On the way back up every node on the
    /// path is rotated below the child that was walked through, if that child
    /// now has the higher priority.
    pub open spec fn inserted(self, node: Self) -> Self
        decreases self,
    {
        if node.key() == self.key() {
            self.replaced(node.element)
        } else if lt(node.key(), self.key()) {
            self.with_left(
                Some(
                    Box::new(
                        match self.left {
                            None => node,
                            Some(l) => l.inserted(node),
                        },
                    ),
                ),
            ).settled_left()
        } else {
            self.with_right(
                Some(
                    Box::new(
                        match self.right {
                            None => node,
                            Some(r) => r.inserted(node),
                        },
                    ),
                ),
            ).settled_right()
        }
    }

    /// Inserting keeps the search-tree order, sets the priority of the
    /// inserted value and leaves every other value as it was; the tree grows
    /// by one node exactly when the value is new.
    pub proof fn lemma_inserted(self, node: Self)
        requires
            total_order::<T>(),
            self.sorted(),
            node.leaf(),
        ensures
            self.inserted(node).sorted(),
            self.inserted(node).entries() == self.entries().insert(node.key(), node.rank()),
            self.inserted(node).count() == self.count() + (if self.entries().contains_key(
                node.key(),
            ) {
                0nat
            } else {
                1nat
            }),
        decreases self,
    {
        reveal_with_fuel(TreapNode::count, 2);
        let k = node.key();
        let x = self.key();
        lemma_trichotomy(k, x);
        assert(node.entries() =~= Map::<T, P>::empty().insert(k, node.rank()));
        if k == x {
            let n = TreapNode { element: node.element, left: self.left, right: self.right };
            assert(n.sorted());
            assert(n.entries() =~= self.entries().insert(k, node.rank()));
            assert(n.count() == self.count());
            n.lemma_sunk();
        } else if lt(k, x) {
            let sub = match self.left {
                None => node,
                Some(l) => l.inserted(node),
            };
            if let Some(l) = self.left {
                l.lemma_inserted(node);
            }
            assert(sub.sorted());
            assert(sub.entries() =~= entries_of(self.left).insert(k, node.rank()));
            let n = self.with_left(Some(Box::new(sub)));
            assert(n.sorted());
            let lm = entries_of(self.left);
            let rm = entries_of(self.right);
            assert(!rm.contains_key(k));
            assert(self.entries() == lm.union_prefer_right(rm).insert(x, self.rank()));
            assert(n.entries() == sub.entries().union_prefer_right(rm).insert(x, self.rank()));
            assert(n.entries() =~= self.entries().insert(k, node.rank()));
            assert(self.entries().contains_key(k) == lm.contains_key(k));
            n.lemma_rotation_keeps_order();
        } else {
            let sub = match self.right {
                None => node,
                Some(r) => r.inserted(node),
            };
            if let Some(r) = self.right {
                r.lemma_inserted(node);
            }
            assert(sub.sorted());
            assert(sub.entries() =~= entries_of(self.right).insert(k, node.rank()));
            let n = self.with_right(Some(Box::new(sub)));
            assert(n.sorted());
            let lm = entries_of(self.left);
            let rm = entries_of(self.right);
            assert(!lm.contains_key(k));
            assert(self.entries() == lm.union_prefer_right(rm).insert(x, self.rank()));
            assert(n.entries() == lm.union_prefer_right(sub.entries()).insert(x, self.rank()));
            assert(n.entries() =~= self.entries().insert(k, node.rank()));
            assert(self.entries().contains_key(k) == rm.contains_key(k));
            n.lemma_rotation_keeps_order();
        }
    }

    /// Inserting keeps the heap order. Afterwards the root's priority is not
    /// higher than before, or the root is the inserted element, above
    /// children that the old root's priority bounds.
    pub proof fn lemma_inserted_heaped(self, node: Self)
        requires
            total_order::<P>(),
            self.heaped(),
            node.leaf(),
        ensures
            self.inserted(node).heaped(),
            le(self.inserted(node).rank(), self.rank()) || (self.inserted(node).element
                == node.element && capped(self.inserted(node).left, self.rank()) && capped(
                self.inserted(node).right,
                self.rank(),
            )),
        decreases self,
    {
        let k = node.key();
        let x = self.key();
        let q = self.rank();
        lemma_lt_irreflexive(q);
        if k == x {
            let n = TreapNode { element: node.element, left: self.left, right: self.right };
            n.lemma_sunk_heaped();
            assert(self.inserted(node) == n.sunk());
        } else if lt(k, x) {
            let sub = match self.left {
                None => node,
                Some(l) => l.inserted(node),
            };
            if let Some(l) = self.left {
                l.lemma_inserted_heaped(node);
                lemma_lt_transitive(sub.rank(), l.rank(), q);
                if let Some(c) = sub.left {
                    lemma_lt_transitive(c.rank(), l.rank(), q);
                }
                if let Some(c) = sub.right {
                    lemma_lt_transitive(c.rank(), l.rank(), q);
                }
            }
            assert(sub.heaped());
            let n = self.with_left(Some(Box::new(sub)));
            if capped(n.left, q) {
                assert(n.heaped());
            } else {
                lemma_trichotomy(sub.rank(), q);
                let down = TreapNode { element: self.element, left: sub.right, right: self.right };
                assert(down.heaped());
                assert(n.rotated_right().heaped());
            }
        } else {
            let sub = match self.right {
                None => node,
                Some(r) => r.inserted(node),
            };
            if let Some(r) = self.right {
                r.lemma_inserted_heaped(node);
                lemma_lt_transitive(sub.rank(), r.rank(), q);
                if let Some(c) = sub.left {
                    lemma_lt_transitive(c.rank(), r.rank(), q);
                }
                if let Some(c) = sub.right {
                    lemma_lt_transitive(c.rank(), r.rank(), q);
                }
            }
            assert(sub.heaped());
            let n = self.with_right(Some(Box::new(sub)));
            if capped(n.right, q) {
                assert(n.heaped());
            } else {
                lemma_trichotomy(sub.rank(), q);
                let down = TreapNode { element: self.element, left: self.left, right: sub.left };
                assert(down.heaped());
                assert(n.rotated_left().heaped());
            }
        }
    }

    /// Sink the root to where it belongs in heap order.
    fn sink(&mut self)
        requires
            total_order::<P>(),
        ensures
            *final(self) == old(self).sunk(),
        decreases old(self).count(),
    {
        proof {
            reveal_with_fuel(TreapNode::count, 3);
        }
        if !self.heap_check(&self.left) || !self.heap_check(&self.right) {
            let lift_right = if self.left.is_none() {
                true
            } else if self.right.is_none() {
                false
            } else {
                let p_left = self.left.as_ref().unwrap().element.priority();
                let p_right = self.right.as_ref().unwrap().element.priority();
                p_left < p_right
            };
            if lift_right {
                self.rotate_left();
                self.left.as_mut().unwrap().sink();
            } else {
                self.rotate_right();
                self.right.as_mut().unwrap().sink();
            }
        }
    }

    /// Insert `node` below this node, on the left.
    fn left_insert(&mut self, node: Self) -> (created: bool)
        requires
            total_order::<T>(),
            total_order::<P>(),
            sorted_of(old(self).left),
            node.leaf(),
        ensures
            *final(self) == old(self).with_left(
                Some(
                    Box::new(
                        match old(self).left {
                            None => node,
                            Some(l) => l.inserted(node),
                        },
                    ),
                ),
            ),
            created == !entries_of(old(self).left).contains_key(node.key()),
        decreases *old(self), 0int,
    {
        match &mut self.left {
            None => {
                self.left = Some(Box::new(node));
                true
            },
            Some(e) => e.insert_or_replace(node),
        }
    }

    /// Insert `node` below this node, on the right.
    fn right_insert(&mut self, node: Self) -> (created: bool)
        requires
            total_order::<T>(),
            total_order::<P>(),
            sorted_of(old(self).right),
            node.leaf(),
        ensures
            *final(self) == old(self).with_right(
                Some(
                    Box::new(
                        match old(self).right {
                            None => node,
                            Some(r) => r.inserted(node),
                        },
                    ),
                ),
            ),
            created == !entries_of(old(self).right).contains_key(node.key()),
        decreases *old(self), 0int,
    {
        match &mut self.right {
            None => {
                self.right = Some(Box::new(node));
                true
            },
            Some(e) => e.insert_or_replace(node),
        }
    }

    /// Insert a new node or modify an existing one.
    /// Return true if a new node is inserted.
    pub fn insert_or_replace(&mut self, node: Self) -> (created: bool)
        requires
            total_order::<T>(),
            total_order::<P>(),
            old(self).sorted(),
            node.leaf(),
        ensures
            *final(self) == old(self).inserted(node),
            created == !old(self).entries().contains_key(node.key()),
            final(self).sorted(),
            final(self).entries() == old(self).entries().insert(node.key(), node.rank()),
            final(self).count() == old(self).count() + (if created {
                1nat
            } else {
                0nat
            }),
            old(self).heaped() ==> final(self).heaped(),
        decreases *old(self), 1int,
    {
        proof {
            old(self).lemma_inserted(node);
            if old(self).heaped() {
                old(self).lemma_inserted_heaped(node);
            }
            lemma_trichotomy(node.key(), old(self).key());
            let lm = entries_of(old(self).left);
            let rm = entries_of(old(self).right);
            assert(old(self).entries() == lm.union_prefer_right(rm).insert(
                old(self).key(),
                old(self).rank(),
            ));
            if lt(node.key(), old(self).key()) {
                assert(!rm.contains_key(node.key()));
            } else if lt(old(self).key(), node.key()) {
                assert(!lm.contains_key(node.key()));
            }
        }
        match self.element.value().cmp(node.element.value()) {
            Ordering::Equal => {
                self.element = node.element;
                self.sink();
                false
            },
            Ordering::Greater => {
                let r = self.left_insert(node);
                if !self.heap_check(&self.left) {
                    self.rotate_right()
                };
                r
            },
            Ordering::Less => {
                let r = self.right_insert(node);
                if !self.heap_check(&self.right) {
                    self.rotate_left()
                };
                r
            },
        }
    }

    /// Insert a new node or modify an existing one, without telling which.
    pub fn insert(&mut self, node: Self)
        requires
            total_order::<T>(),
            total_order::<P>(),
            old(self).sorted(),
            node.leaf(),
        ensures
            *final(self) == old(self).inserted(node),
            final(self).sorted(),
            final(self).entries() == old(self).entries().insert(node.key(), node.rank()),
            final(self).count() == old(self).count() + (if old(self).entries().contains_key(
                node.key(),
            ) {
                0nat
            } else {
                1nat
            }),
            old(self).heaped() ==> final(self).heaped(),
    {
        let _ = self.insert_or_replace(node);
    }

    /// Get the node with value `e`. Note, we do not provide a
    /// get with priorities, the tree is not set up to make that
    /// lookup efficient.
    pub fn get(&self, e: T) -> (found: Option<&Element<T, P>>)
        requires
            total_order::<T>(),
            self.sorted(),
        ensures
            found == (if self.entries().contains_key(e) {
                Some(&Element::of(e, self.entries()[e]))
            } else {
                None
            }),
            found matches Some(x) ==> *x.value() == e && *x.priority() == self.entries()[e],
        decreases self,
    {
        proof {
            self.element.lemma_is_of();
            Element::lemma_of(e, self.entries()[e]);
            lemma_trichotomy(e, self.key());
            let lm = entries_of(self.left);
            let rm = entries_of(self.right);
            assert(self.entries() == lm.union_prefer_right(rm).insert(self.key(), self.rank()));
            if lt(e, self.key()) {
                assert(!rm.contains_key(e));
            } else if lt(self.key(), e) {
                assert(!lm.contains_key(e));
            }
        }
        match self.element.value().cmp(&e) {
            Ordering::Equal => Some(&self.element),
            Ordering::Greater => {
                if let Some(l) = self.left.as_ref() {
                    l.get(e)
                } else {
                    None
                }
            },
            Ordering::Less => {
                if let Some(r) = self.right.as_ref() {
                    r.get(e)
                } else {
                    None
                }
            },
        }
    }

    /// Whether the heap order holds in the whole tree.
    pub fn maintains_heap(&self) -> (ok: bool)
        requires
            total_order::<P>(),
        ensures
            ok == self.heaped(),
        decreases self,
    {
        let left_test = match &self.left {
            Some(n) => n.element.priority() <= self.element.priority() && n.maintains_heap(),
            None => true,
        };
        let right_test = match &self.right {
            Some(n) => n.element.priority() <= self.element.priority() && n.maintains_heap(),
            None => true,
        };
        left_test && right_test
    }

    /// The subtree on the given side.
    pub open spec fn child(self, side: TreapChild) -> Link<T, P> {
        match side {
            TreapChild::Left => self.left,
            TreapChild::Right => self.right,
        }
    }

    /// This node with the subtree on the given side exchanged.
    pub open spec fn with_child(self, side: TreapChild, link: Link<T, P>) -> Self {
        match side {
            TreapChild::Left => self.with_left(link),
            TreapChild::Right => self.with_right(link),
        }
    }

    /// Whether removing the root starts with a left rotation, which lifts the
    /// right child: when there is no left child, or the right child has the
    /// higher priority.
    pub open spec fn lifts_right(self) -> bool {
        match (self.left, self.right) {
            (_, None) => false,
            (None, Some(_)) => true,
            (Some(l), Some(r)) => lt(l.rank(), r.rank()),
        }
    }

    /// What is left of this tree when its root is removed. The root is rotated
    /// down, each time below the child of higher priority, until it is a leaf,
    /// and is then cut off.
    pub open spec fn without_root(self) -> Link<T, P>
        decreases self.count(),
    {
        if self.leaf() {
            None
        } else if self.lifts_right() {
            let up = self.rotated_left();
            proof {
                reveal_with_fuel(TreapNode::count, 3);
            }
            Some(
                Box::new(
                    up.with_left(
                        match up.left {
                            None => None,
                            Some(down) => down.without_root(),
                        },
                    ),
                ),
            )
        } else {
            let up = self.rotated_right();
            proof {
                reveal_with_fuel(TreapNode::count, 3);
            }
            Some(
                Box::new(
                    up.with_right(
                        match up.right {
                            None => None,
                            Some(down) => down.without_root(),
                        },
                    ),
                ),
            )
        }
    }

    /// Remove the root of the subtree on the given side, which must be there.
    fn delete_child(&mut self, child: TreapChild)
        requires
            total_order::<P>(),
            old(self).child(child) is Some,
        ensures
            *final(self) == old(self).with_child(
                child,
                old(self).child(child).unwrap().without_root(),
            ),
        decreases count_of(old(self).child(child)),
    {
        proof {
            reveal_with_fuel(TreapNode::count, 3);
        }
        let done = {
            let which: &mut Self = match child {
                TreapChild::Left => self.left.as_mut().unwrap(),
                TreapChild::Right => self.right.as_mut().unwrap(),
            };
            if which.left.is_none() && which.right.is_none() {
                true
            } else if which.left.is_none() {
                which.rotate_left();
                which.delete_child(TreapChild::Left);
                false
            } else if which.right.is_none() {
                which.rotate_right();
                which.delete_child(TreapChild::Right);
                false
            } else {
                let p_left = which.left.as_ref().unwrap().element.priority();
                let p_right = which.right.as_ref().unwrap().element.priority();
                if p_left < p_right {
                    which.rotate_left();
                    which.delete_child(TreapChild::Left);
                } else {
                    which.rotate_right();
                    which.delete_child(TreapChild::Right);
                }
                false
            }
        };
        if done {
            match child {
                TreapChild::Left => {
                    self.left = None;
                },
                TreapChild::Right => {
                    self.right = None;
                },
            };
        }
    }

    /// Removing the root takes its value out of the tree, and nothing else,
    /// and keeps the search-tree order.
    pub proof fn lemma_without_root(self)
        requires
            total_order::<T>(),
            self.sorted(),
        ensures
            sorted_of(self.without_root()),
            entries_of(self.without_root()) == self.entries().remove(self.key()),
            count_of(self.without_root()) + 1 == self.count(),
        decreases self.count(),
    {
        reveal_with_fuel(TreapNode::count, 3);
        let x = self.key();
        let lm = entries_of(self.left);
        let rm = entries_of(self.right);
        lemma_lt_irreflexive(x);
        assert(!lm.contains_key(x));
        assert(!rm.contains_key(x));
        assert(self.entries() == lm.union_prefer_right(rm).insert(x, self.rank()));
        self.lemma_rotation_keeps_order();
        if self.leaf() {
            assert(self.entries().remove(x) =~= Map::<T, P>::empty());
        } else if self.lifts_right() {
            let up = self.rotated_left();
            let down = *up.left.unwrap();
            assert(down.key() == x);
            assert(down.sorted());
            assert(entries_of(up.left) == down.entries());
            down.lemma_without_root();
            let rest = down.without_root();
            let res = up.with_left(rest);
            assert(self.without_root() == Some(Box::new(res)));
            assert(entries_of(up.left).contains_key(x));
            lemma_trichotomy(x, up.key());
            assert(!entries_of(up.right).contains_key(x)) by {
                if entries_of(up.right).contains_key(x) {
                    lemma_lt_transitive(x, up.key(), x);
                }
            }
            assert forall|k: T| #[trigger] entries_of(rest).contains_key(k) implies lt(
                k,
                up.key(),
            ) by {
                assert(entries_of(up.left).contains_key(k));
            }
            assert(res.sorted());
            assert(up.entries() == entries_of(up.left).union_prefer_right(
                entries_of(up.right),
            ).insert(up.key(), up.rank()));
            assert(res.entries() == entries_of(rest).union_prefer_right(
                entries_of(up.right),
            ).insert(up.key(), up.rank()));
            assert(res.entries() =~= self.entries().remove(x));
        } else {
            let up = self.rotated_right();
            let down = *up.right.unwrap();
            assert(down.key() == x);
            assert(down.sorted());
            assert(entries_of(up.right) == down.entries());
            down.lemma_without_root();
            let rest = down.without_root();
            let res = up.with_right(rest);
            assert(self.without_root() == Some(Box::new(res)));
            assert(entries_of(up.right).contains_key(x));
            lemma_trichotomy(x, up.key());
            assert(!entries_of(up.left).contains_key(x)) by {
                if entries_of(up.left).contains_key(x) {
                    lemma_lt_transitive(x, up.key(), x);
                }
            }
            assert forall|k: T| #[trigger] entries_of(rest).contains_key(k) implies lt(
                up.key(),
                k,
            ) by {
                assert(entries_of(up.right).contains_key(k));
            }
            assert(res.sorted());
            assert(up.entries() == entries_of(up.left).union_prefer_right(
                entries_of(up.right),
            ).insert(up.key(), up.rank()));
            assert(res.entries() == entries_of(up.left).union_prefer_right(
                entries_of(rest),
            ).insert(up.key(), up.rank()));
            assert(res.entries() =~= self.entries().remove(x));
        }
    }

    /// Where both subtrees are in heap order, what is left when the root is
    /// removed is in heap order, and its root is the root of one of them.
    pub proof fn lemma_without_root_heaped(self)
        requires
            total_order::<P>(),
            heaped_of(self.left),
            heaped_of(self.right),
        ensures
            heaped_of(self.without_root()),
            match self.without_root() {
                None => self.leaf(),
                Some(t) => (self.left is Some && t.element == self.left.unwrap().element) || (
                self.right is Some && t.element == self.right.unwrap().element),
            },
        decreases self.count(),
    {
        reveal_with_fuel(TreapNode::count, 3);
        if self.leaf() {
        } else if self.lifts_right() {
            let r = self.right.unwrap();
            let up = self.rotated_left();
            let down = *up.left.unwrap();
            assert(r.heaped());
            down.lemma_without_root_heaped();
            let rest = down.without_root();
            let res = up.with_left(rest);
            assert(self.without_root() == Some(Box::new(res)));
            if let Some(l) = self.left {
                lemma_trichotomy(l.rank(), r.rank());
            }
            assert(capped(rest, r.rank()));
            assert(res.heaped());
        } else {
            let l = self.left.unwrap();
            let up = self.rotated_right();
            let down = *up.right.unwrap();
            assert(l.heaped());
            down.lemma_without_root_heaped();
            let rest = down.without_root();
            let res = up.with_right(rest);
            assert(self.without_root() == Some(Box::new(res)));
            if let Some(r) = self.right {
                lemma_trichotomy(l.rank(), r.rank());
            }
            assert(capped(rest, l.rank()));
            assert(res.heaped());
        }
    }

    /// This tree after the node with value `v`, which is not the root, was
    /// removed from it. Where no node has that value the tree is unchanged.
    pub open spec fn without(self, v: T) -> Self
        decreases self,
    {
        if lt(v, self.key()) {
            match self.left {
                None => self,
                Some(l) => if l.key() == v {
                    self.with_left(l.without_root())
                } else {
                    self.with_left(Some(Box::new(l.without(v))))
                },
            }
        } else if lt(self.key(), v) {
            match self.right {
                None => self,
                Some(r) => if r.key() == v {
                    self.with_right(r.without_root())
                } else {
                    self.with_right(Some(Box::new(r.without(v))))
                },
            }
        } else {
            self
        }
    }

    /// Removing a value below the root takes that value out of the tree, and
    /// nothing else, keeps the search-tree order and keeps the root. A tree
    /// that does not hold the value stays exactly as it is.
    pub proof fn lemma_without(self, v: T)
        requires
            total_order::<T>(),
            self.sorted(),
            self.key() != v,
        ensures
            self.without(v).sorted(),
            self.without(v).entries() == self.entries().remove(v),
            self.without(v).count() + (if self.entries().contains_key(v) {
                1nat
            } else {
                0nat
            }) == self.count(),
            self.without(v).element == self.element,
            !self.entries().contains_key(v) ==> self.without(v) == self,
        decreases self,
    {
        reveal_with_fuel(TreapNode::count, 2);
        let x = self.key();
        let lm = entries_of(self.left);
        let rm = entries_of(self.right);
        lemma_trichotomy(v, x);
        assert(self.entries() == lm.union_prefer_right(rm).insert(x, self.rank()));
        if lt(v, x) {
            assert(!rm.contains_key(v));
            match self.left {
                None => {
                    assert(self.entries().remove(v) =~= self.entries());
                },
                Some(l) => {
                    assert(lm.contains_key(l.key()));
                    let rest = if l.key() == v {
                        l.lemma_without_root();
                        l.without_root()
                    } else {
                        l.lemma_without(v);
                        Some(Box::new(l.without(v)))
                    };
                    assert(entries_of(rest) == lm.remove(v));
                    let res = self.with_left(rest);
                    assert(res.sorted());
                    assert(res.entries() == entries_of(rest).union_prefer_right(rm).insert(
                        x,
                        self.rank(),
                    ));
                    assert(res.entries() =~= self.entries().remove(v));
                },
            }
        } else {
            assert(!lm.contains_key(v));
            match self.right {
                None => {
                    assert(self.entries().remove(v) =~= self.entries());
                },
                Some(r) => {
                    assert(rm.contains_key(r.key()));
                    let rest = if r.key() == v {
                        r.lemma_without_root();
                        r.without_root()
                    } else {
                        r.lemma_without(v);
                        Some(Box::new(r.without(v)))
                    };
                    assert(entries_of(rest) == rm.remove(v));
                    let res = self.with_right(rest);
                    assert(res.sorted());
                    assert(res.entries() == lm.union_prefer_right(entries_of(rest)).insert(
                        x,
                        self.rank(),
                    ));
                    assert(res.entries() =~= self.entries().remove(v));
                },
            }
        }
    }

    /// Removing a value below the root keeps the heap order.
    pub proof fn lemma_without_heaped(self, v: T)
        requires
            total_order::<P>(),
            self.heaped(),
        ensures
            self.without(v).heaped(),
            self.without(v).element == self.element,
        decreases self,
    {
        let q = self.rank();
        if lt(v, self.key()) {
            if let Some(l) = self.left {
                assert(l.heaped());
                if l.key() == v {
                    l.lemma_without_root_heaped();
                    if let Some(c) = l.left {
                        lemma_lt_transitive(c.rank(), l.rank(), q);
                    }
                    if let Some(c) = l.right {
                        lemma_lt_transitive(c.rank(), l.rank(), q);
                    }
                } else {
                    l.lemma_without_heaped(v);
                }
            }
        } else if lt(self.key(), v) {
            if let Some(r) = self.right {
                assert(r.heaped());
                if r.key() == v {
                    r.lemma_without_root_heaped();
                    if let Some(c) = r.left {
                        lemma_lt_transitive(c.rank(), r.rank(), q);
                    }
                    if let Some(c) = r.right {
                        lemma_lt_transitive(c.rank(), r.rank(), q);
                    }
                } else {
                    r.lemma_without_heaped(v);
                }
            }
        }
    }

    /// Delete a node with element `e`. Note, we cannot delete the root itself,
    /// for one we might have nothing to replace it with. The Treap itself takes
    /// care of this problem.
    pub fn delete(&mut self, e: &T) -> (deleted: bool)
        requires
            total_order::<T>(),
            total_order::<P>(),
            old(self).sorted(),
            old(self).key() != *e,
        ensures
            *final(self) == old(self).without(*e),
            deleted == old(self).entries().contains_key(*e),
            final(self).sorted(),
            final(self).entries() == old(self).entries().remove(*e),
            final(self).count() + (if deleted {
                1nat
            } else {
                0nat
            }) == old(self).count(),
            old(self).heaped() ==> final(self).heaped(),
        decreases *old(self),
    {
        proof {
            old(self).lemma_without(*e);
            if old(self).heaped() {
                old(self).lemma_without_heaped(*e);
            }
            lemma_trichotomy(*e, old(self).key());
            let lm = entries_of(old(self).left);
            let rm = entries_of(old(self).right);
            assert(old(self).entries() == lm.union_prefer_right(rm).insert(
                old(self).key(),
                old(self).rank(),
            ));
            if lt(*e, old(self).key()) {
                assert(!rm.contains_key(*e));
            } else {
                assert(!lm.contains_key(*e));
            }
        }
        match self.element.value().cmp(e) {
            Ordering::Equal => vstd::pervasive::unreached(),
            Ordering::Greater => {
                if self.left.is_some() {
                    if self.left.as_ref().unwrap().element.value() == e {
                        self.delete_child(TreapChild::Left);
                        true
                    } else {
                        self.left.as_mut().unwrap().delete(e)
                    }
                } else {
                    false
                }
            },
            Ordering::Less => {
                if self.right.is_some() {
                    if self.right.as_ref().unwrap().element.value() == e {
                        self.delete_child(TreapChild::Right);
                        true
                    } else {
                        self.right.as_mut().unwrap().delete(e)
                    }
                } else {
                    false
                }
            },
        }
    }

    /// A search tree holds as many values as it has nodes.
    pub proof fn lemma_count_is_len(self)
        requires
            total_order::<T>(),
            self.sorted(),
        ensures
            self.entries().dom().finite(),
            self.entries().len() == self.count(),
        decreases self,
    {
        let x = self.key();
        let lm = entries_of(self.left);
        let rm = entries_of(self.right);
        if let Some(l) = self.left {
            l.lemma_count_is_len();
        }
        if let Some(r) = self.right {
            r.lemma_count_is_len();
        }
        assert(lm.dom().finite() && lm.len() == count_of(self.left));
        assert(rm.dom().finite() && rm.len() == count_of(self.right));
        lemma_lt_irreflexive(x);
        assert(!lm.contains_key(x));
        assert(!rm.contains_key(x));
        assert(lm.dom().disjoint(rm.dom())) by {
            assert forall|k: T| lm.dom().contains(k) && rm.dom().contains(k) implies false by {
                assert(lm.contains_key(k) && rm.contains_key(k));
                lemma_trichotomy(k, x);
            }
        }
        vstd::set_lib::lemma_set_disjoint_lens(lm.dom(), rm.dom());
        assert(self.entries().dom() =~= (lm.dom() + rm.dom()).insert(x));
    }

    /// In heap order no priority in the tree is higher than the root's.
    pub proof fn lemma_root_is_highest(self)
        requires
            total_order::<P>(),
            self.heaped(),
        ensures
            forall|k: T| #[trigger]
                self.entries().contains_key(k) ==> le(self.entries()[k], self.rank()),
        decreases self,
    {
        let q = self.rank();
        let lm = entries_of(self.left);
        let rm = entries_of(self.right);
        lemma_lt_irreflexive(q);
        if let Some(l) = self.left {
            l.lemma_root_is_highest();
        }
        if let Some(r) = self.right {
            r.lemma_root_is_highest();
        }
        assert(self.entries() == lm.union_prefer_right(rm).insert(self.key(), q));
        assert forall|k: T| #[trigger] self.entries().contains_key(k) implies le(
            self.entries()[k],
            q,
        ) by {
            if k == self.key() {
            } else if rm.contains_key(k) {
                let r = self.right.unwrap();
                lemma_lt_transitive(rm[k], r.rank(), q);
            } else {
                assert(lm.contains_key(k));
                let l = self.left.unwrap();
                lemma_lt_transitive(lm[k], l.rank(), q);
            }
        }
    }

    /// This tree with `sub` in the place of the node that a search for `v`
    /// ends at.
    pub open spec fn grafted(self, v: T, sub: Self) -> Self
        decreases self,
    {
        if v == self.key() {
            sub
        } else if lt(v, self.key()) {
            match self.left {
                None => self,
                Some(l) => self.with_left(Some(Box::new(l.grafted(v, sub)))),
            }
        } else {
            match self.right {
                None => self,
                Some(r) => self.with_right(Some(Box::new(r.grafted(v, sub)))),
            }
        }
    }

    /// Get the node with value `e`, for changing it in place: what the caller
    /// leaves behind the reference takes that node's place in the tree.
    pub fn get_mut_node(&mut self, e: T) -> (found: Option<&mut Self>)
        requires
            total_order::<T>(),
            old(self).sorted(),
        ensures
            match found {
                Some(n) => n.key() == e && old(self).entries().contains_key(e) && n.rank() == old(self).entries()[e] && *final(self) == old(self).grafted(e, *final(n)),
                None => !old(self).entries().contains_key(e) && *final(self) == *old(self),
            },
        decreases *old(self),
    {
        proof {
            lemma_trichotomy(e, old(self).key());
            let lm = entries_of(old(self).left);
            let rm = entries_of(old(self).right);
            assert(old(self).entries() == lm.union_prefer_right(rm).insert(
                old(self).key(),
                old(self).rank(),
            ));
            if lt(e, old(self).key()) {
                assert(!rm.contains_key(e));
            } else if lt(old(self).key(), e) {
                assert(!lm.contains_key(e));
            }
        }
        match self.element.value().cmp(&e) {
            Ordering::Equal => Some(self),
            Ordering::Greater => {
                if let Some(l) = self.left.as_mut() {
                    l.get_mut_node(e)
                } else {
                    None
                }
            },
            Ordering::Less => {
                if let Some(r) = self.right.as_mut() {
                    r.get_mut_node(e)
                } else {
                    None
                }
            },
        }
    }
}

impl<T: Ord, P: Ord> From<Element<T, P>> for TreapNode<T, P> {
    /// The tree of one element.
    fn from(element: Element<T, P>) -> (node: Self) {
        TreapNode { element, left: None, right: None }
    }
}

impl<T: Ord, P: Ord> vstd::std_specs::convert::FromSpecImpl<Element<T, P>> for TreapNode<T, P> {
    open spec fn obeys_from_spec() -> bool {
        true
    }

    open spec fn from_spec(element: Element<T, P>) -> Self {
        Self::single(element)
    }
}

} // verus!
