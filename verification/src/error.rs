//! The errors of the engine.

use vstd::prelude::*;
use crate::key::KeyId;

verus! {

/// Why the engine refused an operation or an evaluation ended without a value.
#[derive(Debug, PartialEq, Eq)]
pub enum EngineError {
    /// A computation depends on itself. Holds the keys of the cycle in the order in
    /// which they were entered, starting with the key that was requested twice.
    Cycle(Vec<KeyId>),
    /// The computation body itself failed, with the bytes it reported.
    Evaluation(Vec<u8>),
    /// A transaction staged two different values for this key.
    CommitConflict(KeyId),
    /// The engine has begun or finished its teardown.
    Shutdown,
    /// The version counter cannot be advanced any further.
    VersionsExhausted,
    /// The handle names an evaluation that is not running.
    NotInFlight,
    /// Every identifier of the key index is taken.
    KeyIndexFull,
    /// The transaction was committed before.
    AlreadyCommitted,
    /// The version was never installed.
    UnknownVersion,
}

/// The mathematical content of an `EngineError`.
pub enum EngineErrorView {
    Cycle(Seq<KeyId>),
    Evaluation(Seq<u8>),
    CommitConflict(KeyId),
    Shutdown,
    VersionsExhausted,
    NotInFlight,
    KeyIndexFull,
    AlreadyCommitted,
    UnknownVersion,
}

impl View for EngineError {
    type V = EngineErrorView;

    open spec fn view(&self) -> EngineErrorView {
        match self {
            EngineError::Cycle(c) => EngineErrorView::Cycle(c@),
            EngineError::Evaluation(b) => EngineErrorView::Evaluation(b@),
            EngineError::CommitConflict(k) => EngineErrorView::CommitConflict(*k),
            EngineError::Shutdown => EngineErrorView::Shutdown,
            EngineError::VersionsExhausted => EngineErrorView::VersionsExhausted,
            EngineError::NotInFlight => EngineErrorView::NotInFlight,
            EngineError::KeyIndexFull => EngineErrorView::KeyIndexFull,
            EngineError::AlreadyCommitted => EngineErrorView::AlreadyCommitted,
            EngineError::UnknownVersion => EngineErrorView::UnknownVersion,
        }
    }
}

} // verus!
