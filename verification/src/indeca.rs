//! The scale iteration of the pipeline: rounds of solving at an estimated
//! amplitude, each followed by a fit that corrects the estimate, until the two
//! agree. This module holds the rules of the iteration; the rounds themselves
//! are run by the caller.

use vstd::prelude::*;

verus! {

/// Rounds of the scale iteration, at most.
pub const MAX_SCALE_ITERS: usize = 10;

/// What the caller reports after a round.
#[derive(Clone, Copy, PartialEq, Eq, Structural, Debug)]
pub struct RoundOutcome {
    /// The round explained more of the variance than every round before it.
    pub improved: bool,
    /// The fitted amplitude agrees with the estimate the round was run at.
    pub settled: bool,
    /// The fitted amplitude has fallen to nothing.
    pub vanished: bool,
}

/// What the iteration holds.
pub struct ScaleView {
    /// Rounds that have been run.
    pub rounds: nat,
    /// The round whose result is kept, if any round improved.
    pub best: Option<nat>,
    /// Whether another round may be run.
    pub open: bool,
}

impl ScaleView {
    /// The state after a round with the given outcome. The round's result is
    /// kept if it improved. The iteration ends when the amplitude has settled
    /// or vanished, or with the last round allowed.
    pub open spec fn after(self, outcome: RoundOutcome) -> ScaleView {
        ScaleView {
            rounds: self.rounds + 1,
            best: if outcome.improved {
                Some(self.rounds)
            } else {
                self.best
            },
            open: !outcome.settled && !outcome.vanished && self.rounds + 1 < MAX_SCALE_ITERS,
        }
    }

    /// The rounds are counted consistently: no more than allowed, none left
    /// once all are run, and the kept round is one that was run.
    pub open spec fn wf(self) -> bool {
        &&& self.rounds <= MAX_SCALE_ITERS
        &&& self.open ==> self.rounds < MAX_SCALE_ITERS
        &&& self.best matches Some(b) ==> b < self.rounds
    }
}

/// What to do after a round.
#[derive(Clone, Copy, PartialEq, Eq, Structural, Debug)]
pub enum ScaleAction {
    /// Run another round, at the amplitude that the fit gave.
    Rescale,
    /// Stop and take the best round.
    Stop,
}

/// Progress of one scale iteration.
#[derive(Clone, Copy, Debug)]
pub struct ScaleIteration {
    rounds: usize,
    best: Option<usize>,
    open: bool,
}

impl View for ScaleIteration {
    type V = ScaleView;

    /// What the iteration holds, in whole numbers without bounds.
    closed spec fn view(&self) -> ScaleView {
        ScaleView {
            rounds: self.rounds as nat,
            best: match self.best {
                Some(b) => Some(b as nat),
                None => None,
            },
            open: self.open,
        }
    }
}

impl ScaleIteration {
    /// An iteration before its first round.
    pub fn new() -> (it: Self)
        ensures
            it@ == (ScaleView { rounds: 0, best: None, open: true }),
            it@.wf(),
    {
        ScaleIteration { rounds: 0, best: None, open: true }
    }

    /// Whether another round may be run.
    pub fn is_open(&self) -> (open: bool)
        ensures
            open == self@.open,
    {
        self.open
    }

    /// Rounds that have been run.
    pub fn rounds(&self) -> (n: usize)
        ensures
            n == self@.rounds,
    {
        self.rounds
    }

    /// The round whose result is kept.
    pub fn best_round(&self) -> (best: Option<usize>)
        ensures
            best matches Some(b) ==> self@.best == Some(b as nat),
            best is None ==> self@.best is None,
    {
        self.best
    }

    /// Whether the round that comes next starts from the spikes handed in by
    /// the caller: only the first round does, the later ones start from zero.
    pub fn warm_start(&self) -> (warm: bool)
        ensures
            warm == (self@.rounds == 0),
    {
        self.rounds == 0
    }

    /// Takes note of a round and tells how to go on.
    pub fn record(&mut self, outcome: RoundOutcome) -> (action: ScaleAction)
        requires
            old(self)@.wf(),
            old(self)@.open,
        ensures
            final(self)@ == old(self)@.after(outcome),
            final(self)@.wf(),
            action == (if final(self)@.open {
                ScaleAction::Rescale
            } else {
                ScaleAction::Stop
            }),
    {
        if outcome.improved {
            self.best = Some(self.rounds);
        }
        self.rounds = self.rounds + 1;
        self.open = !outcome.settled && !outcome.vanished && self.rounds < MAX_SCALE_ITERS;
        if self.open {
            ScaleAction::Rescale
        } else {
            ScaleAction::Stop
        }
    }
}

} // verus!
