//! The outcome record of a resonator-network factorization, and the restart
//! policy of the search that produces it.
//!
//! A resonator network factors a bound product of hypervectors back into its
//! unknown symbols by iterated cleanup matmuls. Each attempt is floating point;
//! what is decided here is which attempt to run next and what is reported: the
//! first attempt whose factors recompose the composite wins, and if none does,
//! the first attempt is reported as an unverified guess, together with the
//! number of restarts that were run.

use vstd::prelude::*;

verus! {

/// The outcome of a factorization attempt.
#[derive(Clone, Debug, PartialEq)]
pub struct Factorization {
    /// The recovered symbol id for each factor, in codebook order.
    pub factors: Vec<usize>,
    /// How many iterations the winning attempt ran.
    pub iterations: usize,
    /// Whether the winning attempt reached a stable fixed point (vs. the cap).
    pub converged: bool,
    /// Whether recomposing `factors` reproduces the given composite exactly.
    /// When `true`, the answer is provably correct; when `false`, it is a guess.
    pub verified: bool,
    /// How many restarts it took (0 means the first attempt succeeded).
    pub restarts: usize,
}

/// The restart policy of a factorization search: run attempts `0, 1, …` (at least
/// one), stop at the first verified answer, otherwise report the first attempt's
/// factors together with the number of restarts that were run.
#[derive(Clone, Debug)]
pub struct FactorSearch {
    max_iters: usize,
    attempts: usize,
    next: usize,
    done: bool,
    fallback: Option<(Vec<usize>, usize, usize)>,
}

impl FactorSearch {
    /// The iteration cap of each attempt.
    pub closed spec fn spec_max_iters(&self) -> usize {
        self.max_iters
    }

    /// How many attempts may run in all.
    pub closed spec fn spec_attempts(&self) -> usize {
        self.attempts
    }

    /// The index of the attempt to run next (the number recorded so far).
    pub closed spec fn spec_next(&self) -> usize {
        self.next
    }

    /// Whether a verified answer has been found.
    pub closed spec fn spec_done(&self) -> bool {
        self.done
    }

    /// The first recorded attempt: its factors, iterations and restart index.
    pub closed spec fn spec_fallback(&self) -> Option<(Seq<usize>, usize, usize)> {
        match self.fallback {
            Some(f) => Some((f.0@, f.1, f.2)),
            None => None,
        }
    }

    /// The search invariant: the first attempt is kept from the moment one has
    /// been recorded, and it was attempt `0`.
    pub closed spec fn wf(&self) -> bool {
        &&& self.attempts >= 1
        &&& self.next <= self.attempts
        &&& (self.next == 0 <==> self.fallback is None)
        &&& (self.fallback matches Some(f) ==> f.2 == 0)
    }

    /// Start a search of at most `max_restarts` attempts (at least one) of at most
    /// `max_iters` iterations each.
    pub fn new(max_iters: usize, max_restarts: usize) -> (r: Self)
        ensures
            r.wf(),
            r.spec_max_iters() == max_iters,
            r.spec_attempts() == (if max_restarts >= 1 { max_restarts } else { 1 }),
            r.spec_next() == 0,
            !r.spec_done(),
            r.spec_fallback() is None,
    {
        let attempts = if max_restarts >= 1 { max_restarts } else { 1 };
        FactorSearch { max_iters, attempts, next: 0, done: false, fallback: None }
    }

    /// The restart index of the attempt to run next, or `None` once the search has
    /// succeeded or used up its attempts.
    pub fn next_restart(&self) -> (r: Option<usize>)
        requires
            self.wf(),
        ensures
            r == (if self.spec_done() || self.spec_next() >= self.spec_attempts() {
                None::<usize>
            } else {
                Some(self.spec_next())
            }),
    {
        if self.done || self.next >= self.attempts {
            None
        } else {
            Some(self.next)
        }
    }

    /// Record the outcome of the attempt just run: the factor ids it settled on,
    /// the iterations it took, and whether those ids recompose the composite. A
    /// verified outcome ends the search and is the answer; otherwise the first
    /// outcome is kept as the fallback and the next attempt is due.
    pub fn record(&mut self, ids: Vec<usize>, iters: usize, verified: bool) -> (r: Option<Factorization>)
        requires
            old(self).wf(),
            !old(self).spec_done(),
            old(self).spec_next() < old(self).spec_attempts(),
        ensures
            final(self).wf(),
            final(self).spec_max_iters() == old(self).spec_max_iters(),
            final(self).spec_attempts() == old(self).spec_attempts(),
            verified ==> {
                &&& r matches Some(f)
                &&& f.factors@ == ids@
                &&& f.iterations == iters
                &&& f.converged == (iters < old(self).spec_max_iters())
                &&& f.verified
                &&& f.restarts == old(self).spec_next()
                &&& final(self).spec_done()
                &&& final(self).spec_next() == old(self).spec_next()
                &&& final(self).spec_fallback() == old(self).spec_fallback()
            },
            !verified ==> {
                &&& r is None
                &&& !final(self).spec_done()
                &&& final(self).spec_next() == old(self).spec_next() + 1
                &&& final(self).spec_fallback() == (if old(self).spec_fallback() is None {
                    Some((ids@, iters, old(self).spec_next()))
                } else {
                    old(self).spec_fallback()
                })
            },
    {
        if verified {
            self.done = true;
            return Some(Factorization {
                factors: ids,
                iterations: iters,
                converged: iters < self.max_iters,
                verified: true,
                restarts: self.next,
            });
        }
        if self.fallback.is_none() {
            self.fallback = Some((ids, iters, self.next));
        }
        self.next = self.next + 1;
        None
    }

    /// The report when no attempt verified: the first attempt's factors and
    /// iterations, marked neither converged nor verified, with `restarts` the number
    /// of restarts that were run after the first attempt. `None` if no attempt has
    /// been recorded.
    pub fn finish(&self) -> (r: Option<Factorization>)
        requires
            self.wf(),
        ensures
            match self.spec_fallback() {
                None => r is None,
                Some(f) => r matches Some(out) && out.factors@ == f.0 && out.iterations == f.1
                    && !out.converged && !out.verified && out.restarts == self.spec_next() - 1
                    && out.restarts < self.spec_attempts(),
            },
    {
        match &self.fallback {
            None => None,
            Some(f) => Some(Factorization {
                factors: f.0.clone(),
                iterations: f.1,
                converged: false,
                verified: false,
                restarts: self.next - 1,
            }),
        }
    }
}

} // verus!
