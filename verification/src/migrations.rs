//! The migration runner: which steps bring a stored schema to the current
//! version, and in which order they and the version counter are written.
//! Running a step and storing the version is the work of the surroundings.

use vstd::prelude::*;

verus! {

/// The number of migration steps. A schema of this version is current;
/// the step `n` brings a schema from the version `n` to `n + 1`.
pub const MIGRATION_STEPS: u32 = 4;

/// Why the runner stopped.
#[derive(Debug, Clone, Copy, PartialEq, Eq, Structural)]
pub enum MigrationError {
    /// The stored version is newer than any that this runner knows.
    UnknownVersion(u32),
    /// The stored version could not be read.
    VersionUnreadable,
    /// The changes of this step did not succeed.
    StepFailed(u32),
    /// This version could not be stored after its step had succeeded.
    VersionNotStored(u32),
}

/// Where the runner stands.
#[derive(Debug, Clone, Copy, PartialEq, Eq, Structural)]
pub enum RunnerStage {
    /// The stored version is being read.
    ReadingVersion,
    /// The changes of `step` are being made.
    Applying { initial: u32, step: u32 },
    /// `version` is being stored, after the step before it succeeded.
    Storing { initial: u32, version: u32 },
    /// The schema is current.
    Finished { initial: u32 },
    /// The runner refused to go on.
    Halted(MigrationError),
}

/// What the surroundings report of the work they were asked for.
#[derive(Debug, Clone, Copy, PartialEq, Eq, Structural)]
pub enum RunnerEvent {
    /// The stored version was read.
    Version(u32),
    /// The work succeeded.
    Done,
    /// The work failed.
    Failed,
}

/// What the surroundings are asked to do next.
#[derive(Debug, Clone, Copy, PartialEq, Eq, Structural)]
pub enum RunnerAction {
    /// Make the changes of this step.
    ApplyStep(u32),
    /// Store this version.
    StoreVersion(u32),
    /// Nothing is left to do. `initial` is the version that was found,
    /// `last` the number of the last step there is.
    Finish { initial: u32, last: u32 },
    /// Stop, and leave the schema as it is.
    Halt(MigrationError),
}

/// The steps that bring a schema of the version `stored` to the current
/// one, in the order in which they are run.
pub open spec fn steps_from(stored: u32) -> Seq<u32> {
    Seq::new((MIGRATION_STEPS - stored) as nat, |i: int| (stored + i) as u32)
}

/// The stage that follows `stage` on `event`.
pub open spec fn next_stage(stage: RunnerStage, event: RunnerEvent) -> RunnerStage {
    match stage {
        RunnerStage::ReadingVersion => match event {
            RunnerEvent::Version(stored) => if stored > MIGRATION_STEPS {
                RunnerStage::Halted(MigrationError::UnknownVersion(stored))
            } else if stored == MIGRATION_STEPS {
                RunnerStage::Finished { initial: stored }
            } else {
                RunnerStage::Applying { initial: stored, step: stored }
            },
            _ => RunnerStage::Halted(MigrationError::VersionUnreadable),
        },
        RunnerStage::Applying { initial, step } => match event {
            RunnerEvent::Done if step < MIGRATION_STEPS => RunnerStage::Storing {
                initial,
                version: (step + 1) as u32,
            },
            _ => RunnerStage::Halted(MigrationError::StepFailed(step)),
        },
        RunnerStage::Storing { initial, version } => match event {
            RunnerEvent::Done => if version < MIGRATION_STEPS {
                RunnerStage::Applying { initial, step: version }
            } else {
                RunnerStage::Finished { initial }
            },
            _ => RunnerStage::Halted(MigrationError::VersionNotStored(version)),
        },
        RunnerStage::Finished { initial } => RunnerStage::Finished { initial },
        RunnerStage::Halted(error) => RunnerStage::Halted(error),
    }
}

/// What a runner that has come to `stage` asks for.
pub open spec fn action_at(stage: RunnerStage) -> RunnerAction {
    match stage {
        RunnerStage::ReadingVersion => RunnerAction::Halt(MigrationError::VersionUnreadable),
        RunnerStage::Applying { initial, step } => RunnerAction::ApplyStep(step),
        RunnerStage::Storing { initial, version } => RunnerAction::StoreVersion(version),
        RunnerStage::Finished { initial } => RunnerAction::Finish {
            initial,
            last: (MIGRATION_STEPS - 1) as u32,
        },
        RunnerStage::Halted(error) => RunnerAction::Halt(error),
    }
}

/// The steps that are left for a schema of the version `stored`, in
/// ascending order. A version beyond the current one is refused.
pub fn pending_steps(stored: u32) -> (steps: Result<Vec<u32>, MigrationError>)
    ensures
        stored <= MIGRATION_STEPS ==> steps is Ok && steps->Ok_0@ == steps_from(stored),
        stored > MIGRATION_STEPS ==> steps == Err::<Vec<u32>, MigrationError>(
            MigrationError::UnknownVersion(stored),
        ),
{
    if stored > MIGRATION_STEPS {
        return Err(MigrationError::UnknownVersion(stored));
    }
    let mut steps: Vec<u32> = Vec::new();
    let mut step: u32 = stored;
    while step < MIGRATION_STEPS
        invariant
            stored <= step <= MIGRATION_STEPS,
            steps@.len() == step - stored,
            forall|i: int| 0 <= i < steps@.len() ==> steps@[i] == stored + i,
        decreases MIGRATION_STEPS - step,
    {
        steps.push(step);
        step += 1;
    }
    assert(steps@ =~= steps_from(stored));
    Ok(steps)
}

/// The migration runner.
pub struct Migrator {
    stage: RunnerStage,
}

impl Migrator {
    pub closed spec fn stage(&self) -> RunnerStage {
        self.stage
    }

    /// A runner that waits for the stored version.
    pub fn new() -> (runner: Self)
        ensures
            runner.stage() == RunnerStage::ReadingVersion,
    {
        Migrator { stage: RunnerStage::ReadingVersion }
    }

    /// Where the runner stands.
    pub fn current_stage(&self) -> (stage: RunnerStage)
        ensures
            stage == self.stage(),
    {
        self.stage
    }

    /// Takes in what the surroundings report, and says what to do next.
    pub fn advance(&mut self, event: RunnerEvent) -> (action: RunnerAction)
        ensures
            final(self).stage() == next_stage(old(self).stage(), event),
            action == action_at(final(self).stage()),
    {
        let next = match self.stage {
            RunnerStage::ReadingVersion => match event {
                RunnerEvent::Version(stored) => if stored > MIGRATION_STEPS {
                    RunnerStage::Halted(MigrationError::UnknownVersion(stored))
                } else if stored == MIGRATION_STEPS {
                    RunnerStage::Finished { initial: stored }
                } else {
                    RunnerStage::Applying { initial: stored, step: stored }
                },
                _ => RunnerStage::Halted(MigrationError::VersionUnreadable),
            },
            RunnerStage::Applying { initial, step } => match event {
                RunnerEvent::Done => if step < MIGRATION_STEPS {
                    RunnerStage::Storing { initial, version: step + 1 }
                } else {
                    RunnerStage::Halted(MigrationError::StepFailed(step))
                },
                _ => RunnerStage::Halted(MigrationError::StepFailed(step)),
            },
            RunnerStage::Storing { initial, version } => match event {
                RunnerEvent::Done => if version < MIGRATION_STEPS {
                    RunnerStage::Applying { initial, step: version }
                } else {
                    RunnerStage::Finished { initial }
                },
                _ => RunnerStage::Halted(MigrationError::VersionNotStored(version)),
            },
            RunnerStage::Finished { initial } => RunnerStage::Finished { initial },
            RunnerStage::Halted(error) => RunnerStage::Halted(error),
        };
        self.stage = next;
        match next {
            RunnerStage::ReadingVersion => RunnerAction::Halt(MigrationError::VersionUnreadable),
            RunnerStage::Applying { initial: _, step } => RunnerAction::ApplyStep(step),
            RunnerStage::Storing { initial: _, version } => RunnerAction::StoreVersion(version),
            RunnerStage::Finished { initial } => RunnerAction::Finish {
                initial,
                last: MIGRATION_STEPS - 1,
            },
            RunnerStage::Halted(error) => RunnerAction::Halt(error),
        }
    }
}

/// A stored schema: its version counter, and the steps whose changes were
/// made in it, in their order.
pub struct Schema {
    pub version: u32,
    pub applied: Seq<u32>,
}

/// The schema after the surroundings did what `action` asks.
pub open spec fn performed(schema: Schema, action: RunnerAction) -> Schema {
    match action {
        RunnerAction::ApplyStep(step) => Schema {
            version: schema.version,
            applied: schema.applied.push(step),
        },
        RunnerAction::StoreVersion(version) => Schema { version, applied: schema.applied },
        _ => schema,
    }
}

/// The stage and the schema after `rounds` rounds in each of which the
/// work that the runner asked for succeeded.
pub open spec fn smooth_run(stage: RunnerStage, schema: Schema, rounds: nat) -> (
    RunnerStage,
    Schema,
)
    decreases rounds,
{
    if rounds == 0 {
        (stage, schema)
    } else {
        smooth_run(
            next_stage(stage, RunnerEvent::Done),
            performed(schema, action_at(stage)),
            (rounds - 1) as nat,
        )
    }
}

/// Where the work never fails, a runner that applies `step` to a schema
/// of that version makes the changes of every step that is left, in
/// ascending order, stores each version once its step is made, and ends
/// with the current version.
pub proof fn lemma_smooth_run(initial: u32, step: u32, applied: Seq<u32>)
    requires
        step < MIGRATION_STEPS,
    ensures
        smooth_run(
            RunnerStage::Applying { initial, step },
            Schema { version: step, applied },
            (2 * (MIGRATION_STEPS - step)) as nat,
        ) == (
            RunnerStage::Finished { initial },
            Schema { version: MIGRATION_STEPS, applied: applied + steps_from(step) },
        ),
    decreases MIGRATION_STEPS - step,
{
    let rounds = (2 * (MIGRATION_STEPS - step)) as nat;
    let stage = RunnerStage::Applying { initial, step };
    let schema = Schema { version: step, applied };
    let made = Schema { version: step, applied: applied.push(step) };
    let storing = RunnerStage::Storing { initial, version: (step + 1) as u32 };
    let stored = Schema { version: (step + 1) as u32, applied: applied.push(step) };
    assert(smooth_run(stage, schema, rounds) == smooth_run(storing, made, (rounds - 1) as nat));
    let after = next_stage(storing, RunnerEvent::Done);
    assert(smooth_run(storing, made, (rounds - 1) as nat) == smooth_run(
        after,
        stored,
        (rounds - 2) as nat,
    ));
    if step + 1 < MIGRATION_STEPS {
        lemma_smooth_run(initial, (step + 1) as u32, applied.push(step));
        assert(applied.push(step) + steps_from((step + 1) as u32) =~= applied + steps_from(step));
    } else {
        assert(applied.push(step) =~= applied + steps_from(step));
    }
}

/// Migration is monotone. A run in which no work fails brings a schema
/// of any known version to the current one, by exactly the steps that
/// were left. A second run, which finds the schema current, asks for no
/// step and for no change of the version: it finishes at once.
pub proof fn law_second_run_is_idle(stored: u32, applied: Seq<u32>)
    requires
        stored <= MIGRATION_STEPS,
    ensures
        smooth_run(
            next_stage(RunnerStage::ReadingVersion, RunnerEvent::Version(stored)),
            Schema { version: stored, applied },
            (2 * (MIGRATION_STEPS - stored)) as nat,
        ) == (
            RunnerStage::Finished { initial: stored },
            Schema { version: MIGRATION_STEPS, applied: applied + steps_from(stored) },
        ),
        next_stage(RunnerStage::ReadingVersion, RunnerEvent::Version(MIGRATION_STEPS))
            == (RunnerStage::Finished { initial: MIGRATION_STEPS }),
        steps_from(MIGRATION_STEPS) == Seq::<u32>::empty(),
        forall|rounds: nat, schema: Schema|
            smooth_run(RunnerStage::Finished { initial: MIGRATION_STEPS }, schema, rounds) == (
                RunnerStage::Finished { initial: MIGRATION_STEPS },
                schema,
            ),
{
    if stored < MIGRATION_STEPS {
        lemma_smooth_run(stored, stored, applied);
    } else {
        assert(applied + steps_from(stored) =~= applied);
    }
    assert(steps_from(MIGRATION_STEPS) =~= Seq::<u32>::empty());
    assert forall|rounds: nat, schema: Schema|
        smooth_run(RunnerStage::Finished { initial: MIGRATION_STEPS }, schema, rounds) == (
            RunnerStage::Finished { initial: MIGRATION_STEPS },
            schema,
        ) by {
        lemma_finished_is_idle(MIGRATION_STEPS, schema, rounds);
    }
}

/// A runner that has finished leaves the schema alone.
pub proof fn lemma_finished_is_idle(initial: u32, schema: Schema, rounds: nat)
    ensures
        smooth_run(RunnerStage::Finished { initial }, schema, rounds) == (
            RunnerStage::Finished { initial },
            schema,
        ),
    decreases rounds,
{
    if rounds > 0 {
        lemma_finished_is_idle(initial, schema, (rounds - 1) as nat);
    }
}

/// A version that is newer than the current one stops the runner before
/// any step: it asks for nothing but to halt, whatever is reported to it.
pub proof fn law_unknown_version_halts(stored: u32)
    requires
        stored > MIGRATION_STEPS,
    ensures
        next_stage(RunnerStage::ReadingVersion, RunnerEvent::Version(stored))
            == RunnerStage::Halted(MigrationError::UnknownVersion(stored)),
        forall|event: RunnerEvent|
            next_stage(RunnerStage::Halted(MigrationError::UnknownVersion(stored)), event)
                == RunnerStage::Halted(MigrationError::UnknownVersion(stored)),
        action_at(RunnerStage::Halted(MigrationError::UnknownVersion(stored)))
            == RunnerAction::Halt(MigrationError::UnknownVersion(stored)),
{
}

} // verus!
