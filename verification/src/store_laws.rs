//! Why the durable file is never half written: the steps of a commit, run
//! against a model of stable storage.

use crate::store::{next_action, next_stage, CommitAction, CommitEvent, CommitStage};
use vstd::prelude::*;

verus! {

/// Stable storage as a commit sees it: the durable file, which readers
/// open, and the temporary file beside it.
pub struct Storage {
    pub durable: Seq<char>,
    pub temporary: Option<Seq<char>>,
}

/// One round of a commit: what the surroundings report, and what a write
/// that failed in this round left in the file it wrote to.
pub type Round = (CommitEvent, Seq<char>);

/// Storage after the surroundings worked on `action`. A write that came
/// to its end leaves the document in the temporary file, one that failed
/// leaves `torn` there; the durable file changes only by a replacement
/// that came to its end, and then all at once.
pub open spec fn performed(
    storage: Storage,
    action: CommitAction,
    done: bool,
    torn: Seq<char>,
) -> Storage {
    match action {
        CommitAction::WriteTemporary(text) => Storage {
            durable: storage.durable,
            temporary: Some(if done { text@ } else { torn }),
        },
        CommitAction::ReplaceDurable => match storage.temporary {
            Some(document) if done => Storage { durable: document, temporary: None },
            _ => storage,
        },
        _ => storage,
    }
}

/// The stage and the storage after the rounds `rounds`, from the stage
/// `stage` with `asked` being worked on.
pub open spec fn run(
    stage: CommitStage,
    asked: Option<CommitAction>,
    storage: Storage,
    rounds: Seq<Round>,
) -> (CommitStage, Storage)
    decreases rounds.len(),
{
    if rounds.len() == 0 {
        (stage, storage)
    } else {
        let (event, torn) = rounds.first();
        let worked = match asked {
            Some(action) => performed(storage, action, event is Done, torn),
            None => storage,
        };
        run(
            next_stage(stage, event),
            Some(next_action(stage, event)),
            worked,
            rounds.drop_first(),
        )
    }
}

/// The document that the rounds `rounds` commit, if serializing, which
/// comes first, gave one.
pub open spec fn document_of(rounds: Seq<Round>) -> Option<Seq<char>> {
    if rounds.len() > 0 {
        match rounds.first().0 {
            CommitEvent::Serialized(text) => Some(text@),
            _ => None,
        }
    } else {
        None
    }
}

/// What holds between the rounds of a commit of `document` over a durable
/// file that held `before`.
pub open spec fn in_step(
    stage: CommitStage,
    asked: Option<CommitAction>,
    storage: Storage,
    before: Seq<char>,
    document: Seq<char>,
) -> bool {
    match stage {
        CommitStage::Serializing => false,
        CommitStage::Writing => storage.durable == before && (asked matches Some(
            CommitAction::WriteTemporary(text),
        ) && text@ == document),
        CommitStage::Replacing => storage.durable == before && storage.temporary == Some(document)
            && asked == Some(CommitAction::ReplaceDurable),
        CommitStage::Committed => storage.durable == document && asked == Some(
            CommitAction::Release,
        ),
        CommitStage::Failed(error) => storage.durable == before && asked == Some(
            CommitAction::Abort(error),
        ),
    }
}

/// From any point of a commit on, the durable file ends as the whole new
/// document where the commit ends as committed, and as it was before
/// where it does not.
pub proof fn lemma_run_keeps_whole(
    stage: CommitStage,
    asked: Option<CommitAction>,
    storage: Storage,
    rounds: Seq<Round>,
    before: Seq<char>,
    document: Seq<char>,
)
    requires
        in_step(stage, asked, storage, before, document),
    ensures
        run(stage, asked, storage, rounds).0 is Committed ==> run(
            stage,
            asked,
            storage,
            rounds,
        ).1.durable == document,
        !(run(stage, asked, storage, rounds).0 is Committed) ==> run(
            stage,
            asked,
            storage,
            rounds,
        ).1.durable == before,
    decreases rounds.len(),
{
    if rounds.len() > 0 {
        let (event, torn) = rounds.first();
        let worked = performed(storage, asked.unwrap(), event is Done, torn);
        lemma_run_keeps_whole(
            next_stage(stage, event),
            Some(next_action(stage, event)),
            worked,
            rounds.drop_first(),
            before,
            document,
        );
    }
}

/// Atomic durability. However a commit goes, and wherever it stops, the
/// durable file holds a whole document: the one that was serialized
/// where the commit has come to `Committed`, and the one it held before
/// in every other case. In particular nothing is written where
/// serializing fails.
pub proof fn law_durable_is_whole(storage: Storage, rounds: Seq<Round>)
    ensures
        run(CommitStage::Serializing, None, storage, rounds).0 is Committed ==> Some(
            run(CommitStage::Serializing, None, storage, rounds).1.durable,
        ) == document_of(rounds),
        !(run(CommitStage::Serializing, None, storage, rounds).0 is Committed) ==> run(
            CommitStage::Serializing,
            None,
            storage,
            rounds,
        ).1.durable == storage.durable,
{
    if rounds.len() > 0 {
        let (event, torn) = rounds.first();
        let stage = next_stage(CommitStage::Serializing, event);
        let asked = Some(next_action(CommitStage::Serializing, event));
        let document = match event {
            CommitEvent::Serialized(text) => text@,
            _ => Seq::empty(),
        };
        lemma_run_keeps_whole(stage, asked, storage, rounds.drop_first(), storage.durable, document);
        if stage is Failed {
            lemma_failed_stays(stage, asked, storage, rounds.drop_first());
        }
    }
}

/// A commit that was given up stays given up.
pub proof fn lemma_failed_stays(
    stage: CommitStage,
    asked: Option<CommitAction>,
    storage: Storage,
    rounds: Seq<Round>,
)
    requires
        stage is Failed,
    ensures
        run(stage, asked, storage, rounds).0 == stage,
    decreases rounds.len(),
{
    if rounds.len() > 0 {
        let (event, torn) = rounds.first();
        let worked = match asked {
            Some(action) => performed(storage, action, event is Done, torn),
            None => storage,
        };
        lemma_failed_stays(
            next_stage(stage, event),
            Some(next_action(stage, event)),
            worked,
            rounds.drop_first(),
        );
    }
}

/// A commit whose rounds all go well is committed after three of them:
/// serializing, writing the temporary file, putting it in place.
pub proof fn law_three_rounds_commit(storage: Storage, text: String, torn: Seq<char>)
    ensures
        run(
            CommitStage::Serializing,
            None,
            storage,
            seq![
                (CommitEvent::Serialized(text), torn),
                (CommitEvent::Done, torn),
                (CommitEvent::Done, torn),
            ],
        ) == (CommitStage::Committed, Storage { durable: text@, temporary: None }),
{
    let rounds: Seq<Round> = seq![
        (CommitEvent::Serialized(text), torn),
        (CommitEvent::Done, torn),
        (CommitEvent::Done, torn),
    ];
    let second = rounds.drop_first();
    let third = second.drop_first();
    assert(second =~= seq![(CommitEvent::Done, torn), (CommitEvent::Done, torn)]);
    assert(third =~= seq![(CommitEvent::Done, torn)]);
    assert(third.drop_first() =~= Seq::<Round>::empty());
    reveal_with_fuel(run, 4);
}

/// Round trip of a commit. With any way of writing a state as a document
/// and reading a document as a state, of which reading gives back the
/// state that was written: where the document of a commit is what `state`
/// is written as, and the commit has come to `Committed`, the durable
/// file is read as exactly `state`.
pub proof fn law_committed_state_is_read_back<S>(
    storage: Storage,
    rounds: Seq<Round>,
    state: S,
    written: spec_fn(S) -> Seq<char>,
    read: spec_fn(Seq<char>) -> Option<S>,
)
    requires
        read(written(state)) == Some(state),
        document_of(rounds) == Some(written(state)),
        run(CommitStage::Serializing, None, storage, rounds).0 is Committed,
    ensures
        read(run(CommitStage::Serializing, None, storage, rounds).1.durable) == Some(state),
{
    law_durable_is_whole(storage, rounds);
}

} // verus!
