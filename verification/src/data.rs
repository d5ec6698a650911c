//! The pairs that a treap stores.

use crate::order::{lemma_lt_transitive, lemma_trichotomy, total_order};
use core::cmp::Ordering;
use vstd::prelude::*;
use vstd::std_specs::cmp::{OrdSpec, PartialEqSpec, PartialOrdSpecImpl, PartialEqSpecImpl};

verus! {

/// A value together with the priority it was given. The value places the
/// element in a treap and identifies it there; the priority decides how close
/// to the root it sits. Elements are ordered by priority, and by value where
/// the priorities are the same.
#[derive(Eq, Ord)]
pub struct Element<T: Ord, P: Ord> {
    priority: P,
    value: T,
}

impl<T: Ord, P: Ord> Element<T, P> {
    /// The value of the element, as contracts name it.
    pub closed spec fn spec_value(&self) -> &T {
        &self.value
    }

    /// The priority of the element, as contracts name it.
    pub closed spec fn spec_priority(&self) -> &P {
        &self.priority
    }

    /// The element of this value and this priority.
    pub closed spec fn of(value: T, priority: P) -> Self {
        Element { value, priority }
    }

    /// `of` builds the element that the accessors take apart.
    pub proof fn lemma_of(value: T, priority: P)
        ensures
            *Self::of(value, priority).value() == value,
            *Self::of(value, priority).priority() == priority,
    {
    }

    /// Create a new Element.
    pub fn new(value: T, priority: P) -> (e: Self)
        ensures
            e == Self::of(value, priority),
            *e.value() == value,
            *e.priority() == priority,
    {
        Element { value, priority }
    }

    /// Get the Element's value.
    #[verifier::when_used_as_spec(spec_value)]
    pub fn value(&self) -> (v: &T)
        ensures
            v == self.spec_value(),
    {
        &self.value
    }

    /// Get the Element's priority.
    #[verifier::when_used_as_spec(spec_priority)]
    pub fn priority(&self) -> (p: &P)
        ensures
            p == self.spec_priority(),
    {
        &self.priority
    }

    /// An element is the element of its value and its priority.
    pub proof fn lemma_is_of(self)
        ensures
            self == Self::of(*self.value(), *self.priority()),
    {
    }

    /// How this element compares with another: as their priorities do, and,
    /// where these are equal, as their values do.
    pub open spec fn compared(self, other: Self) -> Ordering {
        match self.priority().cmp_spec(other.priority()) {
            Ordering::Less => Ordering::Less,
            Ordering::Greater => Ordering::Greater,
            Ordering::Equal => self.value().cmp_spec(other.value()),
        }
    }

    /// The order of elements is a strict total order, where those of the
    /// values and of the priorities are: only an element itself compares
    /// equal to it, each element sorts before those that sort after it, and
    /// sorting before is transitive.
    pub proof fn lemma_compared_is_total(a: Self, b: Self, c: Self)
        requires
            total_order::<T>(),
            total_order::<P>(),
        ensures
            a.compared(b) == Ordering::Equal <==> a == b,
            a.compared(b) == Ordering::Less <==> b.compared(a) == Ordering::Greater,
            a.compared(b) == Ordering::Less && b.compared(c) == Ordering::Less ==> a.compared(c)
                == Ordering::Less,
    {
        lemma_trichotomy(*a.priority(), *b.priority());
        lemma_trichotomy(*b.priority(), *c.priority());
        lemma_trichotomy(*a.priority(), *c.priority());
        lemma_lt_transitive(*a.priority(), *b.priority(), *c.priority());
        lemma_trichotomy(*a.value(), *b.value());
        lemma_trichotomy(*b.value(), *c.value());
        lemma_trichotomy(*a.value(), *c.value());
        lemma_lt_transitive(*a.value(), *b.value(), *c.value());
    }
}

impl<T: Ord, P: Ord> PartialEq for Element<T, P> {
    /// Whether both the values and the priorities are equal.
    fn eq(&self, other: &Self) -> (same: bool) {
        self.value == other.value && self.priority == other.priority
    }
}

impl<T: Ord, P: Ord> PartialEqSpecImpl for Element<T, P> {
    open spec fn obeys_eq_spec() -> bool {
        T::obeys_eq_spec() && P::obeys_eq_spec()
    }

    open spec fn eq_spec(&self, other: &Self) -> bool {
        self.value().eq_spec(other.value()) && self.priority().eq_spec(other.priority())
    }
}

impl<T: Ord, P: Ord> PartialOrd for Element<T, P> {
    /// Compare by priority, and by value where the priorities are equal.
    fn partial_cmp(&self, other: &Self) -> (o: Option<Ordering>) {
        Some(
            match self.priority.cmp(&other.priority) {
                Ordering::Less => Ordering::Less,
                Ordering::Greater => Ordering::Greater,
                Ordering::Equal => self.value.cmp(&other.value),
            },
        )
    }
}

impl<T: Ord, P: Ord> PartialOrdSpecImpl for Element<T, P> {
    open spec fn obeys_partial_cmp_spec() -> bool {
        T::obeys_cmp_spec() && P::obeys_cmp_spec()
    }

    open spec fn partial_cmp_spec(&self, other: &Self) -> Option<Ordering> {
        Some(self.compared(*other))
    }
}

} // verus!
