//! Transactions: batches of input changes, staged without touching the engine and
//! committed as one new version. A batch that sets one key to two different values
//! is refused at commit; setting a key twice to the same value is the same as
//! setting it once.

use vstd::prelude::*;
use crate::data::UserComputationData;
use crate::dice::{
    commit_result, keys_after_commit, released, result_view, state_after_commit, DiceModern,
};
use crate::error::{EngineError, EngineErrorView};
use crate::key::{Key, KeyView};
use crate::version::VersionNumber;

verus! {

/// The views of the staged changes, in the order in which they were staged.
pub open spec fn staged_view(staged: Seq<(Key, Vec<u8>)>) -> Seq<(KeyView, Seq<u8>)> {
    Seq::new(staged.len(), |i: int| (staged[i].0@, staged[i].1@))
}

/// The keys of the staged changes, in the order in which they were staged.
pub open spec fn staged_keys(batch: Seq<(KeyView, Seq<u8>)>) -> Seq<KeyView> {
    Seq::new(batch.len(), |i: int| batch[i].0)
}

/// The mathematical content of a `TransactionUpdater`.
pub struct TransactionView {
    /// The version that the transaction was opened at.
    pub base: u64,
    /// The staged changes, in order.
    pub staged: Seq<(KeyView, Seq<u8>)>,
    /// Whether the transaction was committed.
    pub committed: bool,
}

/// One pending batch of input changes. Nothing of it is visible to any reader
/// before it is committed.
pub struct TransactionUpdater {
    base: VersionNumber,
    staged: Vec<(Key, Vec<u8>)>,
    user_data: UserComputationData,
    committed: bool,
}

impl View for TransactionUpdater {
    type V = TransactionView;

    closed spec fn view(&self) -> TransactionView {
        TransactionView {
            base: self.base.0,
            staged: staged_view(self.staged@),
            committed: self.committed,
        }
    }
}

impl TransactionUpdater {
    /// What the caller attached to the transaction.
    pub closed spec fn attached(&self) -> UserComputationData {
        self.user_data
    }

    /// An open transaction at version `base` with nothing staged. Only the engine
    /// opens transactions: it is the engine that counts the use of `base`.
    pub(crate) fn new(base: VersionNumber, user_data: UserComputationData) -> (t:
        TransactionUpdater)
        ensures
            t@ == (TransactionView { base: base.0, staged: Seq::empty(), committed: false }),
            t.attached() == user_data,
    {
        let t = TransactionUpdater { base, staged: Vec::new(), user_data, committed: false };
        assert(t@.staged =~= Seq::<(KeyView, Seq<u8>)>::empty());
        t
    }

    /// The version that the transaction was opened at.
    pub fn base_version(&self) -> (v: VersionNumber)
        ensures
            v.0 == self@.base,
    {
        self.base
    }

    /// Whether the transaction was committed.
    pub fn is_committed(&self) -> (b: bool)
        ensures
            b == self@.committed,
    {
        self.committed
    }

    /// The number of staged changes.
    pub fn staged_len(&self) -> (n: usize)
        ensures
            n == self@.staged.len(),
    {
        self.staged.len()
    }

    /// What the caller attached to the transaction.
    pub fn user_data(&self) -> (u: &UserComputationData)
        ensures
            *u == self.attached(),
    {
        &self.user_data
    }

    /// Stages the change of `key` to `value`. Returns whether the change was staged:
    /// a committed transaction takes no more changes.
    pub fn set_input(&mut self, key: Key, value: Vec<u8>) -> (staged: bool)
        ensures
            staged == !old(self)@.committed,
            final(self).attached() == old(self).attached(),
            staged ==> final(self)@ == (TransactionView {
                staged: old(self)@.staged.push((key@, value@)),
                ..old(self)@
            }),
            !staged ==> final(self)@ == old(self)@,
    {
        if self.committed {
            return false;
        }
        let ghost before = self@;
        self.staged.push((key, value));
        assert(self@.staged =~= before.staged.push((key@, value@)));
        true
    }

    /// Commits the staged changes to `dice` as the next version. A transaction
    /// commits once: a second commit is refused and changes nothing. Where the engine
    /// accepts the batch, the transaction is over and gives back its use of the
    /// version it was opened at. Where the engine refuses the batch, the transaction
    /// stays open.
    pub fn commit(&mut self, dice: &mut DiceModern) -> (r: Result<VersionNumber, EngineError>)
        requires
            old(dice).wf(),
        ensures
            final(dice).wf(),
            final(self).attached() == old(self).attached(),
            final(self)@.base == old(self)@.base,
            final(self)@.staged == old(self)@.staged,
            final(self)@.committed == (old(self)@.committed || r is Ok),
            final(dice).data() == old(dice).data(),
            final(dice).policy() == old(dice).policy(),
            old(self)@.committed ==> {
                &&& r matches Err(e)
                &&& e@ == EngineErrorView::AlreadyCommitted
                &&& final(dice).keys() == old(dice).keys()
                &&& final(dice).state() == old(dice).state()
            },
            !old(self)@.committed ==> {
                &&& commit_result(old(dice).keys(), old(dice).state(), old(self)@.staged)
                    == result_view(r)
                &&& final(dice).keys() == keys_after_commit(
                    old(dice).keys(),
                    old(dice).state(),
                    old(self)@.staged,
                )
                &&& final(dice).state() == released(
                    state_after_commit(
                        old(dice).keys(),
                        old(dice).state(),
                        old(self)@.staged,
                    ),
                    old(self)@.base,
                    r is Ok,
                )
            },
    {
        if self.committed {
            return Err(EngineError::AlreadyCommitted);
        }
        let r = dice.commit_staged(&self.staged);
        if r.is_ok() {
            self.committed = true;
            let _ = dice.release(self.base);
        }
        r
    }

    /// Gives the transaction up. A transaction that was not committed gives back its
    /// use of the version it was opened at; nothing of what it staged is ever seen.
    pub fn discard(self, dice: &mut DiceModern)
        requires
            old(dice).wf(),
        ensures
            final(dice).wf(),
            final(dice).keys() == old(dice).keys(),
            final(dice).data() == old(dice).data(),
            final(dice).policy() == old(dice).policy(),
            final(dice).state() == released(old(dice).state(), self@.base, !self@.committed),
    {
        if !self.committed {
            let _ = dice.release(self.base);
        }
    }
}

} // verus!
