use bookkeeper::migrations::{
    pending_steps, MigrationError, Migrator, RunnerAction, RunnerEvent, RunnerStage, MIGRATION_STEPS,
};

#[test]
fn fresh_schema_needs_every_step() {
    assert_eq!(pending_steps(0), Ok(vec![0, 1, 2, 3]));
    assert_eq!(pending_steps(2), Ok(vec![2, 3]));
}

#[test]
fn current_schema_needs_no_step() {
    assert_eq!(MIGRATION_STEPS, 4);
    assert_eq!(pending_steps(4), Ok(Vec::new()));
}

#[test]
fn newer_schema_is_refused() {
    assert_eq!(pending_steps(5), Err(MigrationError::UnknownVersion(5)));
    let mut runner = Migrator::new();
    assert_eq!(
        runner.advance(RunnerEvent::Version(9)),
        RunnerAction::Halt(MigrationError::UnknownVersion(9))
    );
    assert_eq!(runner.advance(RunnerEvent::Done), RunnerAction::Halt(MigrationError::UnknownVersion(9)));
}

#[test]
fn runner_applies_steps_in_ascending_order() {
    let mut runner = Migrator::new();
    assert_eq!(runner.current_stage(), RunnerStage::ReadingVersion);
    let mut actions = vec![runner.advance(RunnerEvent::Version(1))];
    for _ in 0..6 {
        actions.push(runner.advance(RunnerEvent::Done));
    }
    assert_eq!(
        actions,
        vec![
            RunnerAction::ApplyStep(1),
            RunnerAction::StoreVersion(2),
            RunnerAction::ApplyStep(2),
            RunnerAction::StoreVersion(3),
            RunnerAction::ApplyStep(3),
            RunnerAction::StoreVersion(4),
            RunnerAction::Finish { initial: 1, last: 3 },
        ]
    );
    assert_eq!(runner.current_stage(), RunnerStage::Finished { initial: 1 });
}

#[test]
fn second_run_does_nothing() {
    let mut runner = Migrator::new();
    assert_eq!(runner.advance(RunnerEvent::Version(4)), RunnerAction::Finish { initial: 4, last: 3 });
    assert_eq!(runner.advance(RunnerEvent::Done), RunnerAction::Finish { initial: 4, last: 3 });
}

#[test]
fn failed_step_leaves_the_version_alone() {
    let mut runner = Migrator::new();
    assert_eq!(runner.advance(RunnerEvent::Version(0)), RunnerAction::ApplyStep(0));
    assert_eq!(runner.advance(RunnerEvent::Failed), RunnerAction::Halt(MigrationError::StepFailed(0)));
    assert_eq!(runner.advance(RunnerEvent::Done), RunnerAction::Halt(MigrationError::StepFailed(0)));
}

#[test]
fn version_that_is_not_stored_halts_the_runner() {
    let mut runner = Migrator::new();
    runner.advance(RunnerEvent::Version(3));
    assert_eq!(runner.advance(RunnerEvent::Done), RunnerAction::StoreVersion(4));
    assert_eq!(runner.advance(RunnerEvent::Failed), RunnerAction::Halt(MigrationError::VersionNotStored(4)));
}

#[test]
fn unreadable_version_halts_the_runner() {
    let mut runner = Migrator::new();
    assert_eq!(runner.advance(RunnerEvent::Failed), RunnerAction::Halt(MigrationError::VersionUnreadable));
}
