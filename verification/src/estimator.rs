//! Runs of the estimator over random streams of tokens, each with the true
//! number of distinct tokens beside the estimate.

use crate::cvm::{faithful_clone, CountUnique, Estimate, Overflow, Sketch, UNIT};
use crate::order::total_order;
use rand::Rng;
use std::collections::HashSet;
use vstd::prelude::*;

verus! {

/// The stream in which `tokens` arrive, each with its draw.
pub open spec fn paired(tokens: Seq<u64>, draws: Seq<u32>) -> Seq<(u64, u32)> {
    Seq::new(tokens.len(), |j: int| (tokens[j], draws[j]))
}

/// Whether `draws` holds one draw for each of `tokens`.
pub open spec fn draws_for(draws: Seq<u32>, tokens: Seq<u64>) -> bool {
    &&& draws.len() == tokens.len()
    &&& forall|j: int| 0 <= j < draws.len() ==> #[trigger] draws[j] < UNIT
}

/// Whether `tokens` can be what a run of `length` tokens between `low` and
/// `high` saw: that many tokens within these bounds.
pub open spec fn tokens_within(tokens: Seq<u64>, length: u64, low: u64, high: u64) -> bool {
    &&& tokens.len() == length
    &&& forall|j: int| 0 <= j < tokens.len() ==> low <= #[trigger] tokens[j] <= high
}

/// Whether a run over `tokens` can lead from the sketch `before` to the
/// sketch `after` and to `outcome`: with some draws, `after` is what the
/// cleared sketch becomes as the tokens arrive, and the outcome is its
/// estimate, with the number of distinct tokens beside it.
pub open spec fn run_ends_in(
    before: Sketch<u64>,
    after: Sketch<u64>,
    tokens: Seq<u64>,
    outcome: Result<(Estimate, usize), Overflow>,
) -> bool {
    &&& exists|draws: Seq<u32>| #[trigger]
        draws_for(draws, tokens) && after == before.cleared().replayed(paired(tokens, draws))
    &&& match outcome {
        Ok((e, n)) => after.estimate() == Ok::<Estimate, Overflow>(e) && n
            == tokens.to_set().len(),
        Err(o) => after.estimate() == Err::<Estimate, Overflow>(o),
    }
}

/// A token from `low` to `high`, both included, from `rand::Rng::gen_range`
/// on the inclusive range: the outcome lies within the range, which may not
/// be empty. The call returns once the generator has yielded a word that
/// the sampling accepts.
#[verifier::external_body]
fn token_between<R: Rng>(rng: &mut R, low: u64, high: u64) -> (token: u64)
    requires
        low <= high,
    ensures
        low <= token <= high,
{
    rng.gen_range(low..=high)
}

/// An estimator with a source of random tokens, and the record of its runs.
pub struct Estimator<R> {
    cvm: CountUnique<u64, R>,
    estimates: Vec<Estimate>,
    actual_values: Vec<usize>,
    min_token: u64,
    max_token: u64,
    stream_rng: R,
    token_set: HashSet<u64>,
}

impl<R> Estimator<R> {
    /// What the estimator knows of the stream of its latest run.
    pub closed spec fn sketch(self) -> Sketch<u64> {
        self.cvm@
    }

    /// The estimates of the runs so far.
    pub closed spec fn spec_estimates(self) -> Seq<Estimate> {
        self.estimates@
    }

    /// The numbers of distinct tokens of the runs so far.
    pub closed spec fn spec_actual_values(self) -> Seq<usize> {
        self.actual_values@
    }

    /// The least token that a stream may hold.
    pub closed spec fn low(self) -> u64 {
        self.min_token
    }

    /// The greatest token that a stream may hold.
    pub closed spec fn high(self) -> u64 {
        self.max_token
    }
}

impl<R> Estimator<R> {
    /// An estimator of capacity `sz`, which must be non-zero, for streams of
    /// tokens from `min` to `max`. The tokens come from `stream_rng`, the
    /// draws from `treap_rng`.
    pub fn new(stream_rng: R, min: u64, max: u64, treap_rng: R, sz: usize) -> (e: Self)
        requires
            sz >= 1,
        ensures
            e.sketch() == Sketch::<u64>::fresh(sz),
            e.sketch().wf(),
            e.low() == min,
            e.high() == max,
            e.spec_estimates() == Seq::<Estimate>::empty(),
            e.spec_actual_values() == Seq::<usize>::empty(),
    {
        Estimator {
            cvm: CountUnique::new(treap_rng, sz),
            estimates: Vec::new(),
            actual_values: Vec::new(),
            stream_rng,
            min_token: min,
            max_token: max,
            token_set: HashSet::new(),
        }
    }

    /// The estimate of each run so far.
    pub fn estimates(&self) -> (record: &Vec<Estimate>)
        ensures
            record@ == self.spec_estimates(),
    {
        &self.estimates
    }

    /// The number of distinct tokens of each run so far.
    pub fn actual_values(&self) -> (record: &Vec<usize>)
        ensures
            record@ == self.spec_actual_values(),
    {
        &self.actual_values
    }

}

impl<R: Rng> Estimator<R> {
    /// One run over the given tokens: the estimator is reset and sees the
    /// tokens in turn. The outcome is the estimate together with the number
    /// of distinct tokens; both are added to the record. Where the estimate
    /// overflows, the overflow is returned and nothing recorded.
    pub fn run_over(&mut self, toks: &Vec<u64>) -> (outcome: Result<(Estimate, usize), Overflow>)
        requires
            old(self).sketch().wf(),
        ensures
            final(self).sketch().wf(),
            final(self).low() == old(self).low(),
            final(self).high() == old(self).high(),
            run_ends_in(old(self).sketch(), final(self).sketch(), toks@, outcome),
            match outcome {
                Ok((e, n)) => final(self).spec_estimates() == old(self).spec_estimates().push(e)
                    && final(self).spec_actual_values() == old(self).spec_actual_values().push(n),
                Err(_) => final(self).spec_estimates() == old(self).spec_estimates() && final(
                    self).spec_actual_values() == old(self).spec_actual_values(),
            },
    {
        self.cvm.reset();
        self.token_set.clear();
        let ghost start = self.cvm@;
        let ghost mut draws: Seq<u32> = Seq::empty();
        let mut i: usize = 0;
        assert(total_order::<u64>());
        assert(faithful_clone::<u64>());
        assert(paired(toks@.take(0), draws) =~= Seq::<(u64, u32)>::empty());
        assert(toks@.take(0).to_set() =~= Set::<u64>::empty());
        while i < toks.len()
            invariant
                i <= toks.len(),
                total_order::<u64>(),
                faithful_clone::<u64>(),
                self.min_token == old(self).min_token,
                self.max_token == old(self).max_token,
                self.estimates == old(self).estimates,
                self.actual_values == old(self).actual_values,
                start == old(self).cvm@.cleared(),
                self.cvm@.wf(),
                draws_for(draws, toks@.take(i as int)),
                self.cvm@ == start.replayed(paired(toks@.take(i as int), draws)),
                self.token_set@ == toks@.take(i as int).to_set(),
            decreases toks.len() - i,
        {
            let tok = toks[i];
            self.token_set.insert(tok);
            let ghost before = self.cvm@;
            self.cvm.add_token(tok);
            proof {
                let u = choose|u: u32| u < UNIT && self.cvm@ == #[trigger] before.stepped(tok, u);
                let seen = toks@.take(i as int);
                let longer = draws.push(u);
                assert(toks@.take(i + 1) =~= seen.push(tok));
                assert(paired(seen.push(tok), longer).drop_last() =~= paired(seen, draws));
                assert(paired(seen.push(tok), longer).last() == (tok, u));
                seen.lemma_push_to_set_commute(tok);
                draws = longer;
            }
            i += 1;
        }
        assert(toks@.take(toks.len() as int) =~= toks@);
        match self.cvm.estimate() {
            Ok(e) => {
                let n = self.token_set.len();
                self.estimates.push(e);
                self.actual_values.push(n);
                Ok((e, n))
            },
            Err(o) => Err(o),
        }
    }

    /// One run over random tokens: `tokens` tokens are drawn from the bounds
    /// of the estimator, and the run is over them.
    pub fn estimate_tokens(&mut self, tokens: u64) -> (outcome: Result<(Estimate, usize), Overflow>)
        requires
            old(self).sketch().wf(),
            tokens > 0 ==> old(self).low() <= old(self).high(),
        ensures
            final(self).sketch().wf(),
            final(self).low() == old(self).low(),
            final(self).high() == old(self).high(),
            exists|stream: Seq<u64>| #[trigger]
                tokens_within(stream, tokens, old(self).low(), old(self).high()) && run_ends_in(
                    old(self).sketch(),
                    final(self).sketch(),
                    stream,
                    outcome,
                ),
            match outcome {
                Ok((e, n)) => final(self).spec_estimates() == old(self).spec_estimates().push(e)
                    && final(self).spec_actual_values() == old(self).spec_actual_values().push(n),
                Err(_) => final(self).spec_estimates() == old(self).spec_estimates() && final(
                    self).spec_actual_values() == old(self).spec_actual_values(),
            },
    {
        let mut toks: Vec<u64> = Vec::new();
        let mut i: u64 = 0;
        while i < tokens
            invariant
                i <= tokens,
                tokens > 0 ==> self.min_token <= self.max_token,
                self.min_token == old(self).min_token,
                self.max_token == old(self).max_token,
                self.estimates == old(self).estimates,
                self.actual_values == old(self).actual_values,
                self.cvm == old(self).cvm,
                tokens_within(toks@, i, self.min_token, self.max_token),
            decreases tokens - i,
        {
            let tok = token_between(&mut self.stream_rng, self.min_token, self.max_token);
            toks.push(tok);
            i += 1;
        }
        self.run_over(&toks)
    }
}

} // verus!
