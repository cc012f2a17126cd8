use qff::batch::{collect_energies, BatchExecutionError, JobOutcome};
use qff::pipeline::{advance, next_action, Action, Event, Failure, Stage};

fn ok(index: usize, e: f64) -> JobOutcome<f64> {
    JobOutcome { index, value: Some(e) }
}

/// A stand-in for the energy program: a fixed function of the geometry.
fn energy_of_geometry(g: &[f64]) -> f64 {
    g.iter().map(|x| x * x).sum::<f64>() - 76.0
}

#[test]
fn energies_come_back_in_submission_order() {
    let geoms = vec![vec![0.0, 1.0], vec![1.0, 1.0], vec![2.0, 0.5], vec![0.5, 0.5]];
    let expected: Vec<f64> = geoms.iter().map(|g| energy_of_geometry(g)).collect();
    for order in [[0, 1, 2, 3], [3, 2, 1, 0], [2, 0, 3, 1]] {
        let outcomes: Vec<JobOutcome<f64>> =
            order.iter().map(|&i| ok(i, energy_of_geometry(&geoms[i]))).collect();
        assert_eq!(collect_energies(geoms.len(), &outcomes), Ok(expected.clone()));
    }
}

#[test]
fn empty_batch() {
    let outcomes: Vec<JobOutcome<f64>> = vec![];
    assert_eq!(collect_energies(0, &outcomes), Ok(vec![]));
}

#[test]
fn failed_job_fails_the_batch() {
    let outcomes = vec![ok(1, -1.0), JobOutcome { index: 0, value: None }, ok(2, -2.0)];
    assert_eq!(
        collect_energies(3, &outcomes),
        Err(BatchExecutionError::JobFailed { index: 0 })
    );
}

#[test]
fn unknown_duplicate_and_missing_jobs() {
    assert_eq!(
        collect_energies(2, &vec![ok(0, 1.0), ok(2, 1.0)]),
        Err(BatchExecutionError::UnknownJob { index: 2 })
    );
    assert_eq!(
        collect_energies(2, &vec![ok(1, 1.0), ok(1, 2.0)]),
        Err(BatchExecutionError::DuplicateJob { index: 1 })
    );
    assert_eq!(
        collect_energies(3, &vec![ok(2, 1.0), ok(0, 2.0)]),
        Err(BatchExecutionError::MissingJob { index: 1 })
    );
}

#[test]
fn stages_run_in_order() {
    let mut s = Stage::Start;
    let mut actions = vec![];
    while next_action(s) != Action::Stop {
        actions.push(next_action(s));
        s = advance(s, Event::Completed);
    }
    assert_eq!(s, Stage::Done);
    assert_eq!(
        actions,
        vec![
            Action::Optimize,
            Action::Displace,
            Action::Evaluate,
            Action::Fit,
            Action::ConvertForceConstants,
            Action::RunFrequencies,
            Action::Summarize,
        ]
    );
}

#[test]
fn failed_batch_stops_before_fit() {
    let outcomes = vec![ok(0, -1.0), JobOutcome { index: 1, value: None }];
    let mut s = advance(advance(Stage::Start, Event::Completed), Event::Completed);
    assert_eq!(next_action(s), Action::Evaluate);
    let mut fits = 0;
    s = match collect_energies(2, &outcomes) {
        Ok(_) => advance(s, Event::Completed),
        Err(_) => advance(s, Event::Failed(Failure::BatchExecution)),
    };
    for _ in 0..3 {
        if next_action(s) == Action::Fit {
            fits += 1;
        }
        s = advance(s, Event::Completed);
    }
    assert_eq!(s, Stage::Failed(Failure::BatchExecution));
    assert_eq!(fits, 0);
    assert_eq!(next_action(s), Action::Stop);
}

#[test]
fn done_is_terminal() {
    assert_eq!(advance(Stage::Done, Event::Failed(Failure::Fitting)), Stage::Done);
    assert_eq!(
        advance(Stage::Fitted, Event::Failed(Failure::Conversion)),
        Stage::Failed(Failure::Conversion)
    );
}
