//! The control state of the proximal-gradient solver: which steps are taken,
//! when momentum is dropped, and when the solver counts as converged. The
//! numerical work of a step is done by an engine that the caller provides.

use vstd::prelude::*;

verus! {

/// How the forward operator is applied.
#[derive(Clone, Copy, PartialEq, Eq, Structural, Debug)]
pub enum ConvMode {
    /// Full convolution with the kernel in the frequency domain.
    Fft,
    /// Second-order recurrence in the time domain.
    BandedAR2,
}

/// The set in which the solution is held.
#[derive(Clone, Copy, PartialEq, Eq, Structural, Debug)]
pub enum Constraint {
    /// Every sample is at least zero.
    NonNegative,
    /// Every sample lies between zero and one.
    Box01,
}

/// What the engine is told before a step.
#[derive(Clone, Copy, PartialEq, Eq, Structural, Debug)]
pub struct StepPlan {
    pub conv_mode: ConvMode,
    pub constraint: Constraint,
    /// Whether the constant offset is estimated from the residual in this step.
    pub estimate_baseline: bool,
}

/// What the engine reports after a step.
#[derive(Clone, Copy, PartialEq, Eq, Structural, Debug)]
pub struct StepOutcome {
    /// The extrapolation pointed against the progress of the solution.
    pub momentum_hurt: bool,
    /// The solution moved by less than the tolerance allows.
    pub below_tolerance: bool,
}

/// The numerical side of the solver. Nothing is assumed of an engine: what
/// is proved of the control state holds whatever its methods do.
pub trait Engine {
    /// Takes one proximal-gradient step from the extrapolated point and
    /// extrapolates anew, tentatively.
    fn step(&mut self, plan: StepPlan) -> StepOutcome;

    /// Ends the step: with `restart` the momentum is dropped and the
    /// extrapolated point falls back to the solution, without it the tentative
    /// extrapolation stands.
    fn settle(&mut self, restart: bool);
}

/// Steps before which the solver never counts as converged.
pub const MIN_ITERATIONS: u32 = 5;

/// Steps of one batch when a solver is run to convergence.
pub const BATCH_SIZE: u32 = 100;

/// What a solver's control state holds.
pub struct SolverView {
    /// Length of the active trace.
    pub active_len: nat,
    /// Length of the working buffers: the longest trace taken up so far.
    pub capacity: nat,
    /// Steps taken on the active trace.
    pub iteration: nat,
    /// Whether the solver counts as converged.
    pub converged: bool,
    /// Whether the offset of the active trace has been removed.
    pub filtered: bool,
    /// Whether the reconvolution buffer lags behind the solution.
    pub reconvolution_stale: bool,
    pub conv_mode: ConvMode,
    pub constraint: Constraint,
    /// Whether the high-pass filter is switched on.
    pub hp_enabled: bool,
    /// Whether the low-pass filter is switched on.
    pub lp_enabled: bool,
}

impl SolverView {
    /// The same state after one more step with the given outcome: the step is
    /// counted, the reconvolution lags, and the solver counts as converged if
    /// it did before or if the solution has come to rest after more than
    /// `MIN_ITERATIONS` steps.
    pub open spec fn after_step(self, outcome: StepOutcome) -> SolverView {
        SolverView {
            iteration: self.iteration + 1,
            reconvolution_stale: true,
            converged: self.converged || (self.iteration + 1 > MIN_ITERATIONS
                && outcome.below_tolerance),
            ..self
        }
    }

    /// The same state after one step for each of the given outcomes, in turn.
    pub open spec fn after_steps(self, outcomes: Seq<StepOutcome>) -> SolverView
        decreases outcomes.len(),
    {
        if outcomes.len() == 0 {
            self
        } else {
            self.after_steps(outcomes.drop_last()).after_step(outcomes.last())
        }
    }

    /// `self` is reached from `start` by one step for each of the given
    /// outcomes, and by no step more than it took to converge: before the last
    /// of the steps the solver had not converged.
    pub open spec fn reached_by(self, start: SolverView, outcomes: Seq<StepOutcome>) -> bool {
        &&& outcomes.len() == self.iteration - start.iteration
        &&& self == start.after_steps(outcomes)
        &&& outcomes.len() > 0 ==> !start.after_steps(outcomes.drop_last()).converged
    }

    /// Whether the step with the given outcome ends in a restart: momentum is
    /// dropped when it hurt, but never after the first step.
    pub open spec fn restarts(self, outcome: StepOutcome) -> bool {
        self.iteration + 1 > 1 && outcome.momentum_hurt
    }

    /// The plan of the next step. The offset is estimated only while the trace
    /// still carries one.
    pub open spec fn plan(self) -> StepPlan {
        StepPlan {
            conv_mode: self.conv_mode,
            constraint: self.constraint,
            estimate_baseline: !self.filtered,
        }
    }

    /// The two states differ in the progress of the iteration at most.
    pub open spec fn same_setup(self, other: SolverView) -> bool {
        &&& self.active_len == other.active_len
        &&& self.capacity == other.capacity
        &&& self.filtered == other.filtered
        &&& self.conv_mode == other.conv_mode
        &&& self.constraint == other.constraint
        &&& self.hp_enabled == other.hp_enabled
        &&& self.lp_enabled == other.lp_enabled
    }
}

/// Along every run of steps the count of steps grows by one with each step, a
/// converged solver stays converged, the setup stays as it was, and no solver
/// converges before it has taken more than `MIN_ITERATIONS` steps.
pub proof fn lemma_after_steps(start: SolverView, outcomes: Seq<StepOutcome>)
    ensures
        start.after_steps(outcomes).iteration == start.iteration + outcomes.len(),
        start.after_steps(outcomes).same_setup(start),
        start.converged ==> start.after_steps(outcomes).converged,
        !start.converged && start.iteration + outcomes.len() <= MIN_ITERATIONS
            ==> !start.after_steps(outcomes).converged,
        outcomes.len() > 0 ==> start.after_steps(outcomes).reconvolution_stale,
    decreases outcomes.len(),
{
    if outcomes.len() > 0 {
        lemma_after_steps(start, outcomes.drop_last());
    }
}

/// Steps taken one run after the other are the steps of one run.
pub proof fn lemma_after_steps_concat(
    start: SolverView,
    first: Seq<StepOutcome>,
    then: Seq<StepOutcome>,
)
    ensures
        start.after_steps(first).after_steps(then) == start.after_steps(first + then),
    decreases then.len(),
{
    if then.len() == 0 {
        assert(first + then =~= first);
    } else {
        lemma_after_steps_concat(start, first, then.drop_last());
        assert((first + then).drop_last() =~= first + then.drop_last());
        assert((first + then).last() == then.last());
    }
}

/// A run that goes on from where another ended is one run from the start of
/// the first, and it too takes no step more than it took to converge.
pub proof fn lemma_reached_by_concat(
    start: SolverView,
    mid: SolverView,
    end: SolverView,
    first: Seq<StepOutcome>,
    then: Seq<StepOutcome>,
)
    requires
        mid.reached_by(start, first),
        end.reached_by(mid, then),
    ensures
        end.reached_by(start, first + then),
{
    lemma_after_steps_concat(start, first, then);
    if then.len() == 0 {
        assert(first + then =~= first);
    } else {
        lemma_after_steps_concat(start, first, then.drop_last());
        assert((first + then).drop_last() =~= first + then.drop_last());
    }
}

/// The control state is determined by what the engine reports: two solvers in
/// the same state that see the same outcomes end in the same state, and they
/// drop momentum at the same steps.
pub proof fn lemma_same_outcomes_same_state(
    a: SolverView,
    b: SolverView,
    end_a: SolverView,
    end_b: SolverView,
    outcomes: Seq<StepOutcome>,
)
    requires
        a == b,
        end_a.reached_by(a, outcomes),
        end_b.reached_by(b, outcomes),
    ensures
        end_a == end_b,
        forall|k: int|
            0 <= k < outcomes.len() ==> a.after_steps(outcomes.take(k)).restarts(outcomes[k])
                == b.after_steps(outcomes.take(k)).restarts(#[trigger] outcomes[k]),
{
}

/// Control state of one solver. It belongs to one trace at a time.
#[derive(Clone, Copy, Debug)]
pub struct Solver {
    active_len: usize,
    capacity: usize,
    iteration: u32,
    converged: bool,
    filtered: bool,
    reconvolution_stale: bool,
    conv_mode: ConvMode,
    constraint: Constraint,
    hp_enabled: bool,
    lp_enabled: bool,
}

impl View for Solver {
    type V = SolverView;

    /// What the control state holds, in whole numbers without bounds.
    closed spec fn view(&self) -> SolverView {
        SolverView {
            active_len: self.active_len as nat,
            capacity: self.capacity as nat,
            iteration: self.iteration as nat,
            converged: self.converged,
            filtered: self.filtered,
            reconvolution_stale: self.reconvolution_stale,
            conv_mode: self.conv_mode,
            constraint: self.constraint,
            hp_enabled: self.hp_enabled,
            lp_enabled: self.lp_enabled,
        }
    }
}

impl Solver {
    /// The working buffers hold the active trace.
    #[verifier::type_invariant]
    spec fn buffers_hold_trace(self) -> bool {
        self.active_len <= self.capacity
    }

    /// The counters of a solver fit their machine types.
    pub proof fn lemma_view_bounds(&self)
        ensures
            self@.iteration <= u32::MAX,
            self@.active_len <= usize::MAX,
            self@.capacity <= usize::MAX,
    {
    }

    /// A solver with no trace: nothing is active, no step has been taken, the
    /// operator is the full convolution and the solution is held non-negative.
    pub fn new() -> (s: Self)
        ensures
            s@ == (SolverView {
                active_len: 0,
                capacity: 0,
                iteration: 0,
                converged: false,
                filtered: false,
                reconvolution_stale: false,
                conv_mode: ConvMode::Fft,
                constraint: Constraint::NonNegative,
                hp_enabled: false,
                lp_enabled: false,
            }),
    {
        Solver {
            active_len: 0,
            capacity: 0,
            iteration: 0,
            converged: false,
            filtered: false,
            reconvolution_stale: false,
            conv_mode: ConvMode::Fft,
            constraint: Constraint::NonNegative,
            hp_enabled: false,
            lp_enabled: false,
        }
    }

    /// Takes up a trace of `len` samples. All progress is dropped: no step
    /// counts any more, the solver is not converged, and the new trace counts
    /// as unfiltered. The working buffers grow where the trace is longer than
    /// any before it, and never shrink. The choices of operator, constraint
    /// and filters stay.
    pub fn set_trace(&mut self, len: usize)
        ensures
            final(self)@ == (SolverView {
                active_len: len as nat,
                capacity: if old(self)@.capacity < len {
                    len as nat
                } else {
                    old(self)@.capacity
                },
                iteration: 0,
                converged: false,
                filtered: false,
                reconvolution_stale: false,
                ..old(self)@
            }),
    {
        let capacity: usize = if self.capacity < len {
            len
        } else {
            self.capacity
        };
        *self = Solver {
            active_len: len,
            capacity: capacity,
            iteration: 0,
            converged: false,
            filtered: false,
            reconvolution_stale: false,
            conv_mode: self.conv_mode,
            constraint: self.constraint,
            hp_enabled: self.hp_enabled,
            lp_enabled: self.lp_enabled,
        };
    }

    /// Chooses the forward operator.
    pub fn set_conv_mode(&mut self, mode: ConvMode)
        ensures
            final(self)@ == (SolverView { conv_mode: mode, ..old(self)@ }),
    {
        proof {
            use_type_invariant(&*self);
        }
        self.conv_mode = mode;
    }

    /// Chooses the constraint.
    pub fn set_constraint(&mut self, constraint: Constraint)
        ensures
            final(self)@ == (SolverView { constraint: constraint, ..old(self)@ }),
    {
        proof {
            use_type_invariant(&*self);
        }
        self.constraint = constraint;
    }

    /// Switches the high-pass filter on or off.
    pub fn set_hp_filter_enabled(&mut self, enabled: bool)
        ensures
            final(self)@ == (SolverView { hp_enabled: enabled, ..old(self)@ }),
    {
        proof {
            use_type_invariant(&*self);
        }
        self.hp_enabled = enabled;
    }

    /// Switches the low-pass filter on or off.
    pub fn set_lp_filter_enabled(&mut self, enabled: bool)
        ensures
            final(self)@ == (SolverView { lp_enabled: enabled, ..old(self)@ }),
    {
        proof {
            use_type_invariant(&*self);
        }
        self.lp_enabled = enabled;
    }

    /// Switches both filters on or off.
    pub fn set_filter_enabled(&mut self, enabled: bool)
        ensures
            final(self)@ == (SolverView { hp_enabled: enabled, lp_enabled: enabled, ..old(self)@ }),
    {
        proof {
            use_type_invariant(&*self);
        }
        self.hp_enabled = enabled;
        self.lp_enabled = enabled;
    }

    /// Whether either filter is switched on.
    pub fn filter_enabled(&self) -> (on: bool)
        ensures
            on == (self@.hp_enabled || self@.lp_enabled),
    {
        self.hp_enabled || self.lp_enabled
    }

    /// Notes that the offset of the active trace has been removed, by a filter
    /// or by the caller. From then on no step estimates it.
    pub fn mark_filtered(&mut self)
        ensures
            final(self)@ == (SolverView { filtered: true, ..old(self)@ }),
    {
        proof {
            use_type_invariant(&*self);
        }
        self.filtered = true;
    }

    /// Notes that the reconvolution buffer has caught up with the solution.
    pub fn mark_reconvolved(&mut self)
        ensures
            final(self)@ == (SolverView { reconvolution_stale: false, ..old(self)@ }),
    {
        proof {
            use_type_invariant(&*self);
        }
        self.reconvolution_stale = false;
    }

    /// Length of the active trace.
    pub fn active_len(&self) -> (n: usize)
        ensures
            n == self@.active_len,
    {
        self.active_len
    }

    /// Length of the working buffers. They always hold the active trace.
    pub fn capacity(&self) -> (n: usize)
        ensures
            n == self@.capacity,
            self@.active_len <= n,
    {
        proof {
            use_type_invariant(self);
        }
        self.capacity
    }

    /// Steps taken on the active trace.
    pub fn iteration_count(&self) -> (n: u32)
        ensures
            n == self@.iteration,
    {
        self.iteration
    }

    /// Whether the solver counts as converged.
    pub fn converged(&self) -> (c: bool)
        ensures
            c == self@.converged,
    {
        self.converged
    }

    /// Whether the offset of the active trace has been removed.
    pub fn is_filtered(&self) -> (f: bool)
        ensures
            f == self@.filtered,
    {
        self.filtered
    }

    /// Whether the reconvolution buffer lags behind the solution.
    pub fn reconvolution_stale(&self) -> (s: bool)
        ensures
            s == self@.reconvolution_stale,
    {
        self.reconvolution_stale
    }

    /// The chosen forward operator.
    pub fn conv_mode(&self) -> (m: ConvMode)
        ensures
            m == self@.conv_mode,
    {
        self.conv_mode
    }

    /// The chosen constraint.
    pub fn constraint(&self) -> (c: Constraint)
        ensures
            c == self@.constraint,
    {
        self.constraint
    }

    /// Whether the high-pass filter is switched on.
    pub fn hp_filter_enabled(&self) -> (on: bool)
        ensures
            on == self@.hp_enabled,
    {
        self.hp_enabled
    }

    /// Whether the low-pass filter is switched on.
    pub fn lp_filter_enabled(&self) -> (on: bool)
        ensures
            on == self@.lp_enabled,
    {
        self.lp_enabled
    }

    /// What the engine is told before the next step.
    pub fn plan(&self) -> (p: StepPlan)
        ensures
            p == self@.plan(),
    {
        StepPlan {
            conv_mode: self.conv_mode,
            constraint: self.constraint,
            estimate_baseline: !self.filtered,
        }
    }

    /// Records one step: counts it, marks the solver converged when the
    /// solution has come to rest after more than `MIN_ITERATIONS` steps, and
    /// tells whether momentum is dropped.
    pub fn advance(&mut self, outcome: StepOutcome) -> (restart: bool)
        requires
            old(self)@.iteration < u32::MAX,
        ensures
            final(self)@ == old(self)@.after_step(outcome),
            restart == old(self)@.restarts(outcome),
    {
        proof {
            use_type_invariant(&*self);
        }
        self.iteration = self.iteration + 1;
        let restart = self.iteration > 1 && outcome.momentum_hurt;
        if self.iteration > MIN_ITERATIONS && outcome.below_tolerance {
            self.converged = true;
        }
        self.reconvolution_stale = true;
        restart
    }

    /// Takes up to `n_steps` steps and tells whether the solver has converged.
    ///
    /// A trace of no samples is converged at once. A converged solver takes no
    /// step. Otherwise steps are taken until the solver converges, `n_steps`
    /// are done, or the counter is full: no step follows the one at which the
    /// solver converged. The count of steps never falls. Where no step is
    /// taken the engine is left alone.
    pub fn step_batch<E: Engine>(&mut self, engine: &mut E, n_steps: u32) -> (done: bool)
        ensures
            done == final(self)@.converged,
            final(self)@.same_setup(old(self)@),
            old(self)@.active_len == 0 ==> final(self)@ == (SolverView {
                converged: true,
                ..old(self)@
            }),
            old(self)@.converged ==> final(self)@ == old(self)@,
            old(self)@.iteration <= final(self)@.iteration <= old(self)@.iteration + n_steps,
            final(self)@.iteration > old(self)@.iteration ==> final(self)@.reconvolution_stale,
            final(self)@.iteration == old(self)@.iteration ==> final(self)@.reconvolution_stale
                == old(self)@.reconvolution_stale,
            !done ==> final(self)@.iteration == capped(old(self)@.iteration + n_steps),
            done && !old(self)@.converged && old(self)@.active_len > 0 ==> final(self)@.iteration
                > MIN_ITERATIONS,
            old(self)@.active_len > 0 ==> exists|outcomes: Seq<StepOutcome>|
                #[trigger] final(self)@.reached_by(old(self)@, outcomes),
            final(self)@.iteration == old(self)@.iteration ==> *final(engine) == *old(engine),
            old(self)@.converged || old(self)@.active_len == 0 || n_steps == 0 ==> *final(engine)
                == *old(engine),
    {
        proof {
            use_type_invariant(&*self);
        }
        if self.active_len == 0 {
            self.converged = true;
            return true;
        }
        let mut taken: u32 = 0;
        let ghost mut seen: Seq<StepOutcome> = Seq::empty();
        while taken < n_steps && !self.converged && self.iteration < u32::MAX
            invariant
                taken <= n_steps,
                seen.len() == taken,
                self@ == old(self)@.after_steps(seen),
                taken > 0 ==> !old(self)@.after_steps(seen.drop_last()).converged,
                self@.same_setup(old(self)@),
                self.active_len > 0,
                self.iteration == old(self).iteration + taken,
                taken == 0 ==> self@ == old(self)@,
                taken == 0 ==> *engine == *old(engine),
                old(self).converged ==> taken == 0,
                taken > 0 ==> self.reconvolution_stale,
                self.converged && !old(self).converged ==> self.iteration > MIN_ITERATIONS,
            decreases n_steps - taken,
        {
            let outcome = engine.step(self.plan());
            let restart = self.advance(outcome);
            engine.settle(restart);
            taken = taken + 1;
            proof {
                assert(seen.push(outcome).drop_last() =~= seen);
                seen = seen.push(outcome);
            }
        }
        proof {
            assert(self@.reached_by(old(self)@, seen));
        }
        self.converged
    }
}

/// A count of steps as the counter holds it: the counter stops when it is full.
pub open spec fn capped(steps: int) -> int {
    if steps < u32::MAX {
        steps
    } else {
        u32::MAX as int
    }
}

/// The number of batches of `batch_size` steps that hold `max_iters` steps.
pub open spec fn batches_for(max_iters: int, batch_size: int) -> int {
    (max_iters + batch_size - 1) / batch_size
}

/// Whole batches that hold `max_iters` steps hold at least that many.
pub proof fn lemma_batches(max_iters: int, batch_size: int)
    requires
        0 <= max_iters,
        0 < batch_size,
    ensures
        batches_for(max_iters, batch_size) * batch_size >= max_iters,
        batches_for(max_iters, batch_size) == max_iters / batch_size + (if max_iters % batch_size
            != 0 {
            1int
        } else {
            0int
        }),
{
    let q = max_iters / batch_size;
    let r = max_iters % batch_size;
    vstd::arithmetic::div_mod::lemma_fundamental_div_mod(max_iters, batch_size);
    assert(batch_size * q == q * batch_size) by (nonlinear_arith);
    if r == 0 {
        vstd::arithmetic::div_mod::lemma_fundamental_div_mod_converse(
            max_iters + batch_size - 1,
            batch_size,
            q,
            batch_size - 1,
        );
    } else {
        assert((q + 1) * batch_size == q * batch_size + batch_size) by (nonlinear_arith);
        vstd::arithmetic::div_mod::lemma_fundamental_div_mod_converse(
            max_iters + batch_size - 1,
            batch_size,
            q + 1,
            r - 1,
        );
    }
}

/// The larger of two counts of steps.
pub open spec fn larger(a: int, b: int) -> int {
    if a < b {
        b
    } else {
        a
    }
}

/// What a run of batches leaves behind, whatever the engine reported.
///
/// The run is a run of steps from the state at the start, with no step after
/// the one at which the solver converged. A trace of no samples is converged
/// by the first batch. A run that did not converge counts `max_iters` steps at
/// least. With `stop_at_limit` it counts no step past `max_iters`; without it
/// whole batches are taken.
pub open spec fn batches_run(
    start: SolverView,
    end: SolverView,
    done: bool,
    max_iters: int,
    batch_size: int,
    stop_at_limit: bool,
) -> bool {
    &&& done == end.converged
    &&& end.same_setup(start)
    &&& start.iteration <= end.iteration <= start.iteration + batches_for(max_iters, batch_size)
        * batch_size
    &&& start.converged || max_iters == 0 ==> end == start
    &&& start.active_len == 0 && max_iters > 0 ==> done && end == (SolverView {
        converged: true,
        ..start
    })
    &&& start.active_len > 0 ==> exists|outcomes: Seq<StepOutcome>|
        #[trigger] end.reached_by(start, outcomes)
    &&& done && !start.converged && start.active_len > 0 ==> end.iteration > MIN_ITERATIONS
    &&& !done ==> end.iteration >= max_iters
    &&& stop_at_limit ==> end.iteration <= larger(start.iteration as int, max_iters)
    &&& !done && !stop_at_limit ==> end.iteration == capped(
        start.iteration + batches_for(max_iters, batch_size) * batch_size,
    )
}

/// Runs batches of steps until the solver has converged or the batches that
/// hold `max_iters` steps are used up. With `stop_at_limit` no step is taken
/// once the solver counts `max_iters` steps, whatever it had counted at the
/// start: the last batch is cut short. Without it every batch has
/// `batch_size` steps. Where no step is taken the engine is left alone.
pub fn run_batches<E: Engine>(
    solver: &mut Solver,
    engine: &mut E,
    max_iters: u32,
    batch_size: u32,
    stop_at_limit: bool,
) -> (done: bool)
    requires
        batch_size > 0,
    ensures
        batches_run(
            old(solver)@,
            final(solver)@,
            done,
            max_iters as int,
            batch_size as int,
            stop_at_limit,
        ),
        final(solver)@.iteration == old(solver)@.iteration ==> *final(engine) == *old(engine),
{
    let whole: u32 = max_iters / batch_size;
    proof {
        lemma_batches(max_iters as int, batch_size as int);
        vstd::arithmetic::div_mod::lemma_fundamental_div_mod(max_iters as int, batch_size as int);
        assert(whole <= batch_size * whole) by (nonlinear_arith)
            requires
                batch_size >= 1,
                whole >= 0,
        ;
    }
    let batches: u32 = if max_iters % batch_size != 0 {
        whole + 1
    } else {
        whole
    };
    let mut run: u32 = 0;
    let mut done: bool = solver.converged();
    let mut full: bool = false;
    let ghost mut seen: Seq<StepOutcome> = Seq::empty();
    while run < batches && !done && !full
        invariant
            batch_size > 0,
            run <= batches,
            batches == batches_for(max_iters as int, batch_size as int),
            batches * batch_size >= max_iters,
            max_iters > 0 ==> batches > 0,
            done == solver@.converged,
            solver@.same_setup(old(solver)@),
            run == 0 ==> solver@ == old(solver)@ && !full,
            old(solver)@.converged ==> run == 0,
            old(solver)@.iteration <= solver@.iteration,
            solver@.iteration <= old(solver)@.iteration + run * batch_size,
            solver@.iteration == old(solver)@.iteration ==> *engine == *old(engine),
            old(solver)@.active_len == 0 && run > 0 ==> done && solver@ == (SolverView {
                converged: true,
                ..old(solver)@
            }),
            old(solver)@.active_len > 0 ==> solver@.reached_by(old(solver)@, seen),
            done && !old(solver)@.converged && old(solver)@.active_len > 0 ==> solver@.iteration
                > MIN_ITERATIONS,
            !done && !stop_at_limit ==> solver@.iteration == capped(
                old(solver)@.iteration + run * batch_size,
            ),
            stop_at_limit ==> solver@.iteration <= larger(
                old(solver)@.iteration as int,
                max_iters as int,
            ),
            stop_at_limit && !done && !full ==> solver@.iteration == old(solver)@.iteration + run
                * batch_size,
            stop_at_limit && !done && !full && run > 0 ==> solver@.iteration < max_iters,
            full ==> solver@.iteration >= max_iters,
            full ==> stop_at_limit,
        decreases batches - run,
    {
        proof {
            assert((run + 1) * batch_size == run * batch_size + batch_size) by (nonlinear_arith);
            solver.lemma_view_bounds();
        }
        let ghost before = solver@;
        let count: u32 = solver.iteration_count();
        let steps: u32 = if !stop_at_limit {
            batch_size
        } else if count >= max_iters {
            0
        } else if max_iters - count < batch_size {
            max_iters - count
        } else {
            batch_size
        };
        done = solver.step_batch(engine, steps);
        run = run + 1;
        if !done && stop_at_limit && solver.iteration_count() >= max_iters {
            full = true;
        }
        proof {
            if old(solver)@.active_len > 0 {
                let then = choose|then: Seq<StepOutcome>| #[trigger]
                    solver@.reached_by(before, then);
                lemma_reached_by_concat(old(solver)@, before, solver@, seen, then);
                seen = seen + then;
            }
        }
    }
    proof {
        assert(run * batch_size <= batches * batch_size) by (nonlinear_arith)
            requires
                run <= batches,
                batch_size > 0,
        ;
        solver.lemma_view_bounds();
        if old(solver)@.active_len > 0 {
            assert(solver@.reached_by(old(solver)@, seen));
        }
    }
    done
}

/// Runs the solver in batches of `BATCH_SIZE` steps until it has converged or
/// the batches that hold `max_iters` steps are used up. Every batch is a whole
/// batch. Where no step is taken the engine is left alone.
pub fn run_to_convergence<E: Engine>(solver: &mut Solver, engine: &mut E, max_iters: u32) -> (done:
    bool)
    ensures
        batches_run(
            old(solver)@,
            final(solver)@,
            done,
            max_iters as int,
            BATCH_SIZE as int,
            false,
        ),
        final(solver)@.iteration == old(solver)@.iteration ==> *final(engine) == *old(engine),
{
    run_batches(solver, engine, max_iters, BATCH_SIZE, false)
}

} // verus!
