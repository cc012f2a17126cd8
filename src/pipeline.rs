//! The stages of a force field run, strictly in order, and what to do at
//! each. The caller performs each action and reports how it went.

use vstd::prelude::*;
use crate::batch::{JobOutcome, batch_complete};

verus! {

/// Kind of a fatal error, by the step that raised it.
#[derive(Clone, Copy, Debug, PartialEq, Eq, Structural)]
pub enum Failure {
    /// An irrep outside the point group, or a point group without checks.
    Classification,
    /// The energy batch did not yield one energy per geometry.
    BatchExecution,
    /// The regression problem was inconsistent or singular.
    Fitting,
    /// A coordinate transform failed.
    Conversion,
    /// A frequency program could not be started or exited nonzero.
    ExternalProcess,
}

/// Where a run stands.
#[derive(Clone, Copy, Debug, PartialEq, Eq, Structural)]
pub enum Stage {
    Start,
    Optimized,
    Displaced,
    Evaluated,
    Fitted,
    ForceConstants,
    FrequenciesRun,
    Done,
    Failed(Failure),
}

/// What the caller reports after performing a stage's action.
#[derive(Clone, Copy, Debug, PartialEq, Eq, Structural)]
pub enum Event {
    Completed,
    Failed(Failure),
}

/// The work that leads out of a stage.
#[derive(Clone, Copy, Debug, PartialEq, Eq, Structural)]
pub enum Action {
    /// Relax the starting geometry.
    Optimize,
    /// Classify the unit displacements, build the checks and the Taylor
    /// displacement set.
    Displace,
    /// Run the energy batch.
    Evaluate,
    /// Fit the polynomial surface.
    Fit,
    /// Convert the fitted force constants to Cartesian coordinates.
    ConvertForceConstants,
    /// Run the frequency programs.
    RunFrequencies,
    /// Read the frequency summary.
    Summarize,
    /// Nothing is left to do.
    Stop,
}

/// A stage that nothing leads out of.
pub open spec fn is_terminal(s: Stage) -> bool {
    s == Stage::Done || s is Failed
}

/// The stage after a successful action at `s`.
pub open spec fn successor(s: Stage) -> Stage {
    match s {
        Stage::Start => Stage::Optimized,
        Stage::Optimized => Stage::Displaced,
        Stage::Displaced => Stage::Evaluated,
        Stage::Evaluated => Stage::Fitted,
        Stage::Fitted => Stage::ForceConstants,
        Stage::ForceConstants => Stage::FrequenciesRun,
        Stage::FrequenciesRun => Stage::Done,
        _ => s,
    }
}

/// The stage after event `e` at `s`: terminal stages stay put, a success
/// moves one stage on, a failure ends the run.
pub open spec fn next_stage(s: Stage, e: Event) -> Stage {
    if is_terminal(s) {
        s
    } else {
        match e {
            Event::Completed => successor(s),
            Event::Failed(f) => Stage::Failed(f),
        }
    }
}

/// The action that leads out of `s`.
pub open spec fn action_of(s: Stage) -> Action {
    match s {
        Stage::Start => Action::Optimize,
        Stage::Optimized => Action::Displace,
        Stage::Displaced => Action::Evaluate,
        Stage::Evaluated => Action::Fit,
        Stage::Fitted => Action::ConvertForceConstants,
        Stage::ForceConstants => Action::RunFrequencies,
        Stage::FrequenciesRun => Action::Summarize,
        _ => Action::Stop,
    }
}

/// The stage reached from `s` after the events `es`, in order.
pub open spec fn run(s: Stage, es: Seq<Event>) -> Stage
    decreases es.len(),
{
    if es.len() == 0 {
        s
    } else {
        next_stage(run(s, es.drop_last()), es.last())
    }
}

/// Moves the run on by one event.
pub fn advance(s: Stage, e: Event) -> (r: Stage)
    ensures
        r == next_stage(s, e),
{
    match s {
        Stage::Done | Stage::Failed(_) => s,
        _ => match e {
            Event::Failed(f) => Stage::Failed(f),
            Event::Completed => match s {
                Stage::Start => Stage::Optimized,
                Stage::Optimized => Stage::Displaced,
                Stage::Displaced => Stage::Evaluated,
                Stage::Evaluated => Stage::Fitted,
                Stage::Fitted => Stage::ForceConstants,
                Stage::ForceConstants => Stage::FrequenciesRun,
                _ => Stage::Done,
            },
        },
    }
}

/// The action to perform at `s`.
pub fn next_action(s: Stage) -> (r: Action)
    ensures
        r == action_of(s),
{
    match s {
        Stage::Start => Action::Optimize,
        Stage::Optimized => Action::Displace,
        Stage::Displaced => Action::Evaluate,
        Stage::Evaluated => Action::Fit,
        Stage::Fitted => Action::ConvertForceConstants,
        Stage::ForceConstants => Action::RunFrequencies,
        Stage::FrequenciesRun => Action::Summarize,
        _ => Action::Stop,
    }
}

/// A failed run stays failed, with the same cause, whatever is reported
/// afterwards, and asks for no further action.
pub proof fn lemma_failure_is_final(f: Failure, es: Seq<Event>)
    ensures
        run(Stage::Failed(f), es) == Stage::Failed(f),
        action_of(run(Stage::Failed(f), es)) == Action::Stop,
    decreases es.len(),
{
    if es.len() > 0 {
        lemma_failure_is_final(f, es.drop_last());
    }
}

/// Seven successful actions take a run from the start to the end, one stage
/// at a time.
pub proof fn lemma_success_reaches_done()
    ensures
        run(Stage::Start, Seq::new(7, |i: int| Event::Completed)) == Stage::Done,
{
    let es = Seq::new(7, |i: int| Event::Completed);
    reveal_with_fuel(run, 8);
    assert(es.drop_last().drop_last().drop_last().drop_last().drop_last().drop_last().drop_last()
        =~= Seq::<Event>::empty());
}

/// A batch in which some job failed is not complete, so its energies are
/// refused; the run then fails with a batch error and never asks for a fit,
/// whatever is reported afterwards.
pub proof fn lemma_failed_job_aborts_before_fit<T>(
    n: nat,
    outcomes: Seq<JobOutcome<T>>,
    k: int,
    es: Seq<Event>,
)
    requires
        0 <= k < outcomes.len(),
        outcomes[k].value is None,
    ensures
        !batch_complete(n, outcomes),
        run(next_stage(Stage::Displaced, Event::Failed(Failure::BatchExecution)), es) == Stage::Failed(
            Failure::BatchExecution,
        ),
        forall|i: int|
            0 <= i <= es.len() ==> action_of(
                #[trigger] run(
                    next_stage(Stage::Displaced, Event::Failed(Failure::BatchExecution)),
                    es.take(i),
                ),
            ) != Action::Fit,
{
    lemma_failure_is_final(Failure::BatchExecution, es);
    assert forall|i: int| 0 <= i <= es.len() implies action_of(
        #[trigger] run(
            next_stage(Stage::Displaced, Event::Failed(Failure::BatchExecution)),
            es.take(i),
        ),
    ) != Action::Fit by {
        lemma_failure_is_final(Failure::BatchExecution, es.take(i));
    }
}

} // verus!
