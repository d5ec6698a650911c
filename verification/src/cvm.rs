//! The CVM estimator of the number of distinct tokens in a stream.
//!
//! Draws and thresholds are the multiples of 2^-24 in [0, 1], held as their
//! numerators: a draw is an integer below `UNIT`, and `UNIT` itself stands for
//! the threshold one.

use crate::data::Element;
use crate::order::{lemma_u32_total_order, total_order};
use crate::treap::Treap;
use rand::Rng;
use vstd::prelude::*;

verus! {

/// The threshold one, and the bound of every draw: 2^24.
pub const UNIT: u32 = 0x100_0000;

/// The largest occupancy that an estimate reports: 2^53, up to which every
/// integer is a double-precision number.
pub const EXACT_LIMIT: u64 = 0x20_0000_0000_0000;

/// A clone of a `T` is the value it was cloned from.
pub open spec fn faithful_clone<T: Clone>() -> bool {
    forall|a: T, b: T| #[trigger] cloned(a, b) ==> a == b
}

/// What an estimator knows of the stream so far.
pub struct Sketch<T: Ord> {
    /// The tokens that are retained, each with its draw.
    pub reservoir: Treap<T, u32>,
    /// The admission threshold, as a numerator over `UNIT`.
    pub threshold: u32,
    /// The number of tokens that the reservoir may hold.
    pub capacity: usize,
}

impl<T: Ord> Sketch<T> {
    /// The sketch at the start of a run.
    pub open spec fn fresh(capacity: usize) -> Self {
        Sketch { reservoir: Treap::blank(), threshold: UNIT, capacity }
    }

    /// This sketch, made ready for another run.
    pub open spec fn cleared(self) -> Self {
        Self::fresh(self.capacity)
    }

    /// The reservoir is a treap in heap order within the capacity, which is
    /// at least one, and the threshold is at most one.
    pub open spec fn wf(self) -> bool {
        &&& self.reservoir.wf()
        &&& self.reservoir.heap_ordered()
        &&& self.reservoir.spec_size() <= self.capacity
        &&& 1 <= self.capacity
        &&& self.threshold <= UNIT
    }

    /// This sketch with another reservoir.
    pub open spec fn holding(self, reservoir: Treap<T, u32>) -> Self {
        Sketch { reservoir, threshold: self.threshold, capacity: self.capacity }
    }

    /// The sketch after `token` arrived with the draw `u`. An entry that the
    /// token already has is dropped first. A draw that is not below the
    /// threshold changes nothing more. Otherwise the token enters with its
    /// draw where there is room; in a full reservoir it either lowers the
    /// threshold to its draw and stays out, when the highest draw retained is
    /// above its own, or takes the place of the element with that highest
    /// draw, which becomes the threshold.
    pub open spec fn stepped(self, token: T, u: u32) -> Self {
        let rest = self.reservoir.deleted(token);
        if u >= self.threshold {
            self.holding(rest)
        } else if rest.spec_size() < self.capacity {
            self.holding(rest.inserted(Element::of(token, u)))
        } else {
            match rest.top() {
                None => self.holding(rest),
                Some(m) => if *m.priority() > u {
                    Sketch { reservoir: rest, threshold: u, capacity: self.capacity }
                } else {
                    Sketch {
                        reservoir: rest.deleted(*m.value()).inserted(Element::of(token, u)),
                        threshold: *m.priority(),
                        capacity: self.capacity,
                    }
                },
            }
        }
    }

    /// The sketch after the tokens of `stream` arrived in turn, each with its
    /// draw.
    pub open spec fn replayed(self, stream: Seq<(T, u32)>) -> Self
        decreases stream.len(),
    {
        if stream.len() == 0 {
            self
        } else {
            self.replayed(stream.drop_last()).stepped(stream.last().0, stream.last().1)
        }
    }

    /// What `estimate` reports of this sketch.
    pub open spec fn estimate(self) -> Result<Estimate, Overflow> {
        Estimate::checked(self.reservoir.spec_size(), self.threshold)
    }

    /// A token leaves a well-formed sketch well-formed: the reservoir stays
    /// within the capacity, and the threshold does not rise.
    pub proof fn lemma_stepped(self, token: T, u: u32)
        requires
            total_order::<T>(),
            self.wf(),
        ensures
            self.stepped(token, u).wf(),
            self.stepped(token, u).capacity == self.capacity,
            self.stepped(token, u).threshold <= self.threshold,
            self.stepped(token, u).reservoir.spec_size() <= self.capacity,
    {
        lemma_u32_total_order();
        let rest = self.reservoir.deleted(token);
        let e = Element::<T, u32>::of(token, u);
        Element::<T, u32>::lemma_of(token, u);
        self.reservoir.lemma_deleted(token);
        self.reservoir.lemma_size();
        rest.lemma_size();
        assert(rest@.len() <= self.reservoir@.len()) by {
            if self.reservoir@.contains_key(token) {
                assert(rest@.len() + 1 == self.reservoir@.len());
            }
        }
        if u >= self.threshold {
        } else if rest.spec_size() < self.capacity {
            rest.lemma_inserted(e);
            rest.lemma_inserted_heap_ordered(e);
            rest.inserted(e).lemma_size();
        } else {
            rest.lemma_top();
            match rest.top() {
                None => {
                    assert(rest@.len() == 0);
                },
                Some(m) => {
                    if *m.priority() > u {
                    } else {
                        let less = rest.deleted(*m.value());
                        rest.lemma_deleted(*m.value());
                        less.lemma_size();
                        assert(less@.len() + 1 == rest@.len());
                        less.lemma_inserted(e);
                        less.lemma_inserted_heap_ordered(e);
                        less.inserted(e).lemma_size();
                    }
                },
            }
        }
    }

    /// What a token does to the reservoir, seen as the draws by token: its
    /// own entry leaves; a draw below the threshold enters where there is
    /// room; in a full reservoir a token of highest draw is looked at, and
    /// either its draw becomes the threshold and the new token takes its
    /// place, or it stays and the new token's draw becomes the threshold.
    pub proof fn lemma_stepped_view(self, token: T, u: u32)
        requires
            total_order::<T>(),
            self.wf(),
        ensures
            ({
                let before = self.reservoir@.remove(token);
                let after = self.stepped(token, u);
                if u >= self.threshold {
                    after.reservoir@ == before && after.threshold == self.threshold
                } else if before.len() < self.capacity {
                    after.reservoir@ == before.insert(token, u) && after.threshold
                        == self.threshold
                } else {
                    exists|m: T|
                        {
                            &&& #[trigger] before.contains_key(m)
                            &&& forall|k: T| #[trigger] before.contains_key(k) ==> before[k] <= before[m]
                            &&& if before[m] > u {
                                after.reservoir@ == before && after.threshold == u
                            } else {
                                after.reservoir@ == before.remove(m).insert(token, u)
                                    && after.threshold == before[m]
                            }
                        }
                }
            }),
    {
        lemma_u32_total_order();
        let rest = self.reservoir.deleted(token);
        let e = Element::<T, u32>::of(token, u);
        Element::<T, u32>::lemma_of(token, u);
        self.reservoir.lemma_deleted(token);
        rest.lemma_size();
        if u >= self.threshold {
        } else if rest.spec_size() < self.capacity {
            rest.lemma_inserted(e);
        } else {
            rest.lemma_top();
            match rest.top() {
                None => {
                    assert(rest@.len() == 0);
                },
                Some(m) => {
                    assert(rest@.contains_key(*m.value()));
                    if *m.priority() > u {
                    } else {
                        let less = rest.deleted(*m.value());
                        rest.lemma_deleted(*m.value());
                        less.lemma_size();
                        less.lemma_inserted(e);
                    }
                },
            }
        }
    }

    /// Over a whole run the sketch stays well-formed, the reservoir stays
    /// within the capacity, and the threshold does not rise.
    pub proof fn lemma_replayed(self, stream: Seq<(T, u32)>)
        requires
            total_order::<T>(),
            self.wf(),
        ensures
            self.replayed(stream).wf(),
            self.replayed(stream).capacity == self.capacity,
            self.replayed(stream).threshold <= self.threshold,
            self.replayed(stream).reservoir.spec_size() <= self.capacity,
        decreases stream.len(),
    {
        if stream.len() > 0 {
            self.lemma_replayed(stream.drop_last());
            self.replayed(stream.drop_last()).lemma_stepped(stream.last().0, stream.last().1);
        }
    }

    /// A run in two parts is the run over the whole stream.
    pub proof fn lemma_replayed_in_parts(self, first: Seq<(T, u32)>, second: Seq<(T, u32)>)
        ensures
            self.replayed(first + second) == self.replayed(first).replayed(second),
        decreases second.len(),
    {
        if second.len() == 0 {
            assert(first + second =~= first);
        } else {
            self.lemma_replayed_in_parts(first, second.drop_last());
            assert((first + second).drop_last() =~= first + second.drop_last());
            assert((first + second).last() == second.last());
        }
    }

    /// At no point of a run is the threshold higher than at an earlier point
    /// of it.
    pub proof fn lemma_threshold_never_rises(self, stream: Seq<(T, u32)>, i: int, j: int)
        requires
            total_order::<T>(),
            self.wf(),
            0 <= i <= j <= stream.len(),
        ensures
            self.replayed(stream.take(j)).threshold <= self.replayed(stream.take(i)).threshold,
    {
        let first = stream.take(i);
        let second = stream.subrange(i, j);
        assert(stream.take(j) =~= first + second);
        self.lemma_replayed_in_parts(first, second);
        self.lemma_replayed(first);
        self.replayed(first).lemma_replayed(second);
    }

    /// Two runs from cleared sketches of one capacity over the same tokens
    /// and draws end in the same sketch, and so in the same estimate.
    pub proof fn lemma_replay_is_reproducible(self, other: Self, stream: Seq<(T, u32)>)
        requires
            self.capacity == other.capacity,
        ensures
            self.cleared().replayed(stream) == other.cleared().replayed(stream),
            self.cleared().replayed(stream).estimate() == other.cleared().replayed(
                stream,
            ).estimate(),
    {
    }
}

/// The estimate of a sketch, as the exact fraction
/// `occupancy * UNIT / threshold`.
#[derive(Clone, Copy, Debug, PartialEq, Eq)]
pub struct Estimate {
    /// The number of tokens in the reservoir.
    pub occupancy: usize,
    /// The admission threshold, as a numerator over `UNIT`.
    pub threshold: u32,
}

/// The reservoir holds more tokens than an estimate can report exactly.
#[derive(Clone, Copy, Debug, PartialEq, Eq)]
pub struct Overflow {
    /// The number of tokens in the reservoir.
    pub occupancy: usize,
}

impl Estimate {
    /// The estimate of an occupancy and a threshold, or the overflow where
    /// the occupancy is above `EXACT_LIMIT`.
    pub open spec fn checked(occupancy: usize, threshold: u32) -> Result<Estimate, Overflow> {
        if occupancy <= EXACT_LIMIT {
            Ok(Estimate { occupancy, threshold })
        } else {
            Err(Overflow { occupancy })
        }
    }

    /// The estimate of a reservoir that holds `occupancy` tokens under the
    /// given threshold. It is refused where the occupancy is too large to be
    /// reported exactly.
    pub fn new(occupancy: usize, threshold: u32) -> (r: Result<Estimate, Overflow>)
        ensures
            r == Self::checked(occupancy, threshold),
    {
        if occupancy as u64 <= EXACT_LIMIT {
            Ok(Estimate { occupancy, threshold })
        } else {
            Err(Overflow { occupancy })
        }
    }

    /// The estimate rounded down to a whole number of tokens, or `None`
    /// where the threshold is zero and the estimate has no finite value.
    pub fn floor(&self) -> (whole: Option<u128>)
        ensures
            self.threshold == 0 ==> whole is None,
            self.threshold != 0 ==> whole == Some(
                ((self.occupancy * UNIT) / (self.threshold as int)) as u128,
            ),
    {
        if self.threshold == 0 {
            None
        } else {
            let scaled: u128 = self.occupancy as u128 * UNIT as u128;
            Some(scaled / self.threshold as u128)
        }
    }
}

/// The CVM algorithm state. `T` is the type of tokens that are
/// being counted, and `R` is the random number generator that should
/// be used.
pub struct CountUnique<T: Ord + Clone, R> {
    treap: Treap<T, u32>,
    rng: R,
    max_size: usize,
    p: u32,
}

impl<T: Ord + Clone, R> View for CountUnique<T, R> {
    type V = Sketch<T>;

    closed spec fn view(&self) -> Sketch<T> {
        Sketch { reservoir: self.treap, threshold: self.p, capacity: self.max_size }
    }
}

impl<T: Ord + Clone, R> CountUnique<T, R> {
    /// The random number generator, in its present state.
    pub closed spec fn source(self) -> R {
        self.rng
    }
}

/// The next 32 bits of `rng`, from `rand::RngCore::next_u32`. Nothing is
/// claimed of them.
#[verifier::external_body]
fn next_word<R: Rng>(rng: &mut R) -> (word: u32) {
    rng.next_u32()
}

/// The draw that a word of random bits stands for: its upper 24 bits, which
/// are the bits that a uniform draw of a single-precision number from [0, 1)
/// is made of.
pub fn draw_of_word(word: u32) -> (u: u32)
    ensures
        u == word / 256,
        u < UNIT,
{
    assert(word >> 8 == word / 256 && (word >> 8) < 0x100_0000u32) by (bit_vector);
    word >> 8
}

impl<T: Ord + Clone, R> CountUnique<T, R> {
    /// Create a new `CountUnique` structure. `sz` is the number
    /// of elements stored by CVM, and must be non-zero.
    pub fn new(r: R, sz: usize) -> (c: Self)
        requires
            sz >= 1,
        ensures
            c@ == Sketch::<T>::fresh(sz),
            c@.wf(),
            c.source() == r,
    {
        proof {
            Treap::<T, u32>::lemma_blank();
        }
        CountUnique { treap: Treap::new(), rng: r, max_size: sz, p: UNIT }
    }

    /// Add a token to the CVM, with the given draw in the place of one from
    /// the random number generator. A draw of `UNIT` or more is above every
    /// threshold.
    pub fn add_token_with_draw(&mut self, t: T, u: u32)
        requires
            total_order::<T>(),
            faithful_clone::<T>(),
            old(self)@.wf(),
        ensures
            final(self)@ == old(self)@.stepped(t, u),
            final(self).source() == old(self).source(),
            final(self)@.wf(),
            final(self)@.capacity == old(self)@.capacity,
            final(self)@.threshold <= old(self)@.threshold,
            final(self)@.reservoir.spec_size() <= final(self)@.capacity,
    {
        proof {
            lemma_u32_total_order();
            old(self)@.lemma_stepped(t, u);
            old(self).treap.lemma_size();
            old(self).treap.lemma_deleted(t);
            old(self).treap.deleted(t).lemma_size();
            old(self).treap.deleted(t).lemma_top();
        }
        let stale = t.clone();
        assert(cloned(t, stale));
        self.treap.delete(stale);
        if u < self.p {
            if self.treap.size() < self.max_size {
                self.treap.insert(Element::new(t, u));
            } else {
                // This unwrap is safe: we are guaranteed to have one.
                let (m_priority, m_value) = {
                    let m = self.treap.get_max().unwrap();
                    (*m.priority(), m.value().clone())
                };
                assert(cloned(*old(self).treap.deleted(t).top().unwrap().value(), m_value));
                if m_priority > u {
                    self.p = u;
                } else {
                    proof {
                        self.treap.lemma_deleted(m_value);
                        self.treap.deleted(m_value).lemma_size();
                    }
                    self.treap.delete(m_value);
                    self.treap.insert(Element::new(t, u));
                    self.p = m_priority;
                }
            }
        }
    }

    /// Return the current estimated number of tokens, as the fraction of the
    /// reservoir's occupancy over the threshold. Note that
    /// CVM is a probabilistic algorithm and the returned value can
    /// be far from the actual value, the algorithm merely guarantees
    /// that it will return the correct value in expectation.
    pub fn estimate(&self) -> (r: Result<Estimate, Overflow>)
        ensures
            r == self@.estimate(),
    {
        Estimate::new(self.treap.size(), self.p)
    }

    /// Reset the CVM state allowing the structure to be reused.
    pub fn reset(&mut self)
        ensures
            final(self)@ == old(self)@.cleared(),
            final(self).source() == old(self).source(),
            old(self)@.capacity >= 1 ==> final(self)@.wf(),
    {
        proof {
            Treap::<T, u32>::lemma_blank();
        }
        self.treap.reset();
        self.p = UNIT;
    }
}

impl<T: Ord + Clone, R: Rng> CountUnique<T, R> {
    /// Add a token to the CVM, with a draw from the random number generator.
    pub fn add_token(&mut self, t: T)
        requires
            total_order::<T>(),
            faithful_clone::<T>(),
            old(self)@.wf(),
        ensures
            exists|u: u32| u < UNIT && final(self)@ == #[trigger] old(self)@.stepped(t, u),
            final(self)@.wf(),
            final(self)@.capacity == old(self)@.capacity,
            final(self)@.threshold <= old(self)@.threshold,
            final(self)@.reservoir.spec_size() <= final(self)@.capacity,
    {
        let word = next_word(&mut self.rng);
        let u = draw_of_word(word);
        self.add_token_with_draw(t, u);
    }
}

} // verus!
