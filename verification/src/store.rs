//! The durable store: the state in memory, and the order of the steps by
//! which a change of it reaches stable storage. Reading and writing the
//! document is the work of the surroundings; what to do next, and when
//! the result of a change may be handed out, is decided here.

use crate::state::CacheContent;
use vstd::prelude::*;

verus! {

/// Why a load or a commit failed.
#[derive(Debug, Clone, Copy, PartialEq, Eq, Structural)]
pub enum StoreError {
    /// Stable storage could not be read or written.
    Io,
    /// The stored document could not be read as a state.
    TomlRead,
    /// The state could not be written as a document.
    TomlWrite,
}

/// How far a commit has come.
#[derive(Debug, Clone, Copy, PartialEq, Eq, Structural)]
pub enum CommitStage {
    /// The state is being written as a document; storage is untouched.
    Serializing,
    /// The document is being written to a temporary file.
    Writing,
    /// The temporary file is taking the place of the durable one.
    Replacing,
    /// The durable file holds the new document.
    Committed,
    /// The commit was given up.
    Failed(StoreError),
}

/// What the surroundings report of the step they were asked for.
#[derive(Debug, Clone, PartialEq, Eq)]
pub enum CommitEvent {
    /// The state was written as this document.
    Serialized(String),
    /// The state could not be written as a document.
    SerializeFailed,
    /// The step on stable storage was carried out in full.
    Done,
    /// The step on stable storage failed.
    IoFailed,
}

/// What the surroundings are asked to do next.
#[derive(Debug, Clone, PartialEq, Eq)]
pub enum CommitAction {
    /// Write this document to the temporary file, in full.
    WriteTemporary(String),
    /// Put the temporary file in the place of the durable one, at once.
    ReplaceDurable,
    /// Nothing is left to do: the result may be handed out.
    Release,
    /// Give up, and leave stable storage as it is.
    Abort(StoreError),
}

/// The stage that follows `stage` on `event`. A document is written only
/// once it exists, and the durable file is replaced only by a temporary
/// file that was written in full. An event that the stage did not ask for
/// ends the commit.
pub open spec fn next_stage(stage: CommitStage, event: CommitEvent) -> CommitStage {
    match stage {
        CommitStage::Serializing => match event {
            CommitEvent::Serialized(_) => CommitStage::Writing,
            CommitEvent::SerializeFailed => CommitStage::Failed(StoreError::TomlWrite),
            _ => CommitStage::Failed(StoreError::Io),
        },
        CommitStage::Writing => match event {
            CommitEvent::Done => CommitStage::Replacing,
            _ => CommitStage::Failed(StoreError::Io),
        },
        CommitStage::Replacing => match event {
            CommitEvent::Done => CommitStage::Committed,
            _ => CommitStage::Failed(StoreError::Io),
        },
        CommitStage::Committed => CommitStage::Committed,
        CommitStage::Failed(error) => CommitStage::Failed(error),
    }
}

/// What is asked of the surroundings once `stage` was left on `event`.
pub open spec fn next_action(stage: CommitStage, event: CommitEvent) -> CommitAction {
    match next_stage(stage, event) {
        CommitStage::Writing => match event {
            CommitEvent::Serialized(text) => CommitAction::WriteTemporary(text),
            _ => CommitAction::Abort(StoreError::Io),
        },
        CommitStage::Replacing => CommitAction::ReplaceDurable,
        CommitStage::Committed => CommitAction::Release,
        CommitStage::Failed(error) => CommitAction::Abort(error),
        CommitStage::Serializing => CommitAction::Abort(StoreError::Io),
    }
}

/// A change of the state that is on its way to stable storage. It holds
/// the result of the change, and hands it out once the change is durable.
pub struct Commit<R> {
    stage: CommitStage,
    result: R,
}

impl<R> Commit<R> {
    pub closed spec fn stage(&self) -> CommitStage {
        self.stage
    }

    /// The result that waits for the commit.
    pub closed spec fn result(&self) -> R {
        self.result
    }

    /// How far the commit has come.
    pub fn current_stage(&self) -> (stage: CommitStage)
        ensures
            stage == self.stage(),
    {
        self.stage
    }

    /// Whether the commit has come to its end, either way.
    pub fn is_settled(&self) -> (settled: bool)
        ensures
            settled == (self.stage() is Committed || self.stage() is Failed),
    {
        match self.stage {
            CommitStage::Committed => true,
            CommitStage::Failed(_) => true,
            _ => false,
        }
    }

    /// Takes in what the surroundings report, and says what to do next.
    pub fn advance(&mut self, event: CommitEvent) -> (action: CommitAction)
        ensures
            final(self).result() == old(self).result(),
            final(self).stage() == next_stage(old(self).stage(), event),
            action == next_action(old(self).stage(), event),
    {
        match self.stage {
            CommitStage::Serializing => match event {
                CommitEvent::Serialized(text) => {
                    self.stage = CommitStage::Writing;
                    CommitAction::WriteTemporary(text)
                },
                CommitEvent::SerializeFailed => {
                    self.stage = CommitStage::Failed(StoreError::TomlWrite);
                    CommitAction::Abort(StoreError::TomlWrite)
                },
                _ => {
                    self.stage = CommitStage::Failed(StoreError::Io);
                    CommitAction::Abort(StoreError::Io)
                },
            },
            CommitStage::Writing => match event {
                CommitEvent::Done => {
                    self.stage = CommitStage::Replacing;
                    CommitAction::ReplaceDurable
                },
                _ => {
                    self.stage = CommitStage::Failed(StoreError::Io);
                    CommitAction::Abort(StoreError::Io)
                },
            },
            CommitStage::Replacing => match event {
                CommitEvent::Done => {
                    self.stage = CommitStage::Committed;
                    CommitAction::Release
                },
                _ => {
                    self.stage = CommitStage::Failed(StoreError::Io);
                    CommitAction::Abort(StoreError::Io)
                },
            },
            CommitStage::Committed => CommitAction::Release,
            CommitStage::Failed(error) => CommitAction::Abort(error),
        }
    }

    /// Hands the result out where the change is durable, and the reason
    /// where the commit was given up.
    pub fn finish(self) -> (outcome: Result<R, StoreError>)
        requires
            self.stage() is Committed || self.stage() is Failed,
        ensures
            self.stage() is Committed ==> outcome == Ok::<R, StoreError>(self.result()),
            self.stage() matches CommitStage::Failed(error) ==> outcome == Err::<R, StoreError>(
                error,
            ),
    {
        match self.stage {
            CommitStage::Failed(error) => Err(error),
            _ => Ok(self.result),
        }
    }
}

/// The state in memory.
pub struct Cache {
    content: CacheContent,
}

impl Cache {
    /// The state that the store holds.
    pub closed spec fn state(&self) -> CacheContent {
        self.content
    }

    pub open spec fn well_formed(&self) -> bool {
        self.state().well_formed()
    }

    /// A store that holds `content`.
    pub fn new(content: CacheContent) -> (cache: Self)
        ensures
            cache.state() == content,
    {
        Cache { content }
    }

    /// Whether a file of `length` bytes holds a document at all. A file
    /// that is missing or empty holds none, and is no error.
    pub fn holds_document(length: u64) -> (held: bool)
        ensures
            held == (length > 0),
    {
        length > 0
    }

    /// The store as it is loaded from a file of `length` bytes. A file that
    /// is missing or empty counts as one of no bytes: it gives the blank
    /// state, and `parse` is not called. Any other file gives what `parse`
    /// makes of it: the state it read, as it is, or its error.
    pub fn from_file<P>(length: u64, parse: P) -> (loaded: Result<Self, StoreError>) where
        P: FnOnce() -> Result<CacheContent, StoreError>,
        requires
            call_requires(parse, ()),
        ensures
            length == 0 ==> loaded is Ok && loaded->Ok_0.state().is_blank()
                && loaded->Ok_0.well_formed(),
            length > 0 ==> exists|parsed: Result<CacheContent, StoreError>|
                call_ensures(parse, (), parsed) && match parsed {
                    Ok(content) => loaded is Ok && loaded->Ok_0.state() == content,
                    Err(error) => loaded == Err::<Self, StoreError>(error),
                },
    {
        if Self::holds_document(length) {
            match parse() {
                Ok(content) => Ok(Cache { content }),
                Err(error) => Err(error),
            }
        } else {
            Ok(Cache { content: CacheContent::default() })
        }
    }

    /// The state, to read it or to write it as a document.
    pub fn content(&self) -> (content: &CacheContent)
        ensures
            *content == self.state(),
    {
        &self.content
    }

    /// Applies `fun` to the state. The state that `fun` gives back is the
    /// new state in memory; the result of `fun` waits in the commit that
    /// is returned, which starts with storage untouched.
    pub fn with<F, R>(&mut self, fun: F) -> (pending: Commit<R>) where
        F: FnOnce(CacheContent) -> (CacheContent, R),
        requires
            call_requires(fun, (old(self).state(),)),
        ensures
            call_ensures(fun, (old(self).state(),), (final(self).state(), pending.result())),
            pending.stage() == CommitStage::Serializing,
    {
        let mut taken = CacheContent::default();
        core::mem::swap(&mut self.content, &mut taken);
        let (next, result) = fun(taken);
        self.content = next;
        Commit { stage: CommitStage::Serializing, result }
    }
}

} // verus!
