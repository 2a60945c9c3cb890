//! The engine: the key index, the core state and the injected data under one roof,
//! and the steps by which a caller resolves a key at a version.

use vstd::prelude::*;
use crate::change::{batch_view, InputChange};
use crate::cycles::{
    after_record, chain_fits, cycle_through, first_entry, keys_of, lemma_first_entry_exists,
    on_chain, DetectCycles, EvaluationChain, FrameView,
};
use crate::data::{set_once, DiceData, UserComputationData};
use crate::dump::{dump_graph, edges_table, nodes_table, running_table, GraphDump};
use crate::error::{EngineError, EngineErrorView};
use crate::key::{Key, KeyId, KeyView};
use crate::key_index::{
    distinct, id_of, ids_are_stable, intern_all, interned, interning_all_keeps_distinct,
    interning_keeps_distinct, knows, DiceKeyIndex, MAX_KEYS,
};
use crate::model::{
    first_conflict, flight_of, has_conflict, in_flight, ChangeView, ClaimView, CoreView,
    HandleView, NodeStateView,
};
use crate::node::{copy_bytes, Outcome};
use crate::state::{Claim, CoreState, EvaluationHandle, NodeState};
use crate::transaction::{staged_keys, staged_view, TransactionUpdater, TransactionView};
use crate::version::VersionNumber;

verus! {

/// The mathematical content of a `Step`.
pub enum StepView {
    Ready(NodeStateView),
    Await,
    Evaluate(HandleView),
}

/// What a caller that asked for a key has to do next.
#[derive(Debug, PartialEq, Eq)]
pub enum Step {
    /// Nothing: the key is settled, with this state.
    Ready(NodeState),
    /// Wait for the evaluation that is running, then ask again.
    Await,
    /// Settle the key: recheck the dependencies that the handle names, or run the
    /// computation body, and hand the outcome in.
    Evaluate(EvaluationHandle),
}

impl View for Step {
    type V = StepView;

    open spec fn view(&self) -> StepView {
        match self {
            Step::Ready(s) => StepView::Ready(s@),
            Step::Await => StepView::Await,
            Step::Evaluate(h) => StepView::Evaluate(h@),
        }
    }
}

/// The step that answers a claim.
pub open spec fn step_of(claim: ClaimView) -> StepView {
    match claim {
        ClaimView::Settled(s) => StepView::Ready(s),
        ClaimView::Shared => StepView::Await,
        ClaimView::Granted(h) => StepView::Evaluate(h),
    }
}

/// The batch with every key replaced by the identifier that it has in `keys`.
pub open spec fn resolved(keys: Seq<KeyView>, batch: Seq<(KeyView, Seq<u8>)>) -> Seq<ChangeView> {
    Seq::new(
        batch.len(),
        |i: int| ChangeView { key: KeyId(id_of(keys, batch[i].0) as u32), value: batch[i].1 },
    )
}

/// The mathematical content of the answer to a commit.
pub enum CommitResult {
    Committed(nat),
    Refused(EngineErrorView),
}

/// The mathematical content of what a commit returned.
pub open spec fn result_view(r: Result<VersionNumber, EngineError>) -> CommitResult {
    match r {
        Ok(v) => CommitResult::Committed(v@),
        Err(e) => CommitResult::Refused(e@),
    }
}

/// Whether the engine takes no batch at all, or has no room for the keys of this one.
pub open spec fn turned_away(
    keys: Seq<KeyView>,
    state: CoreView,
    batch: Seq<(KeyView, Seq<u8>)>,
) -> bool {
    state.shut_down || keys.len() + batch.len() > MAX_KEYS
}

/// The key index after an attempt to commit `batch`: unless the engine turned the
/// batch away, every key of the batch has its identifier.
pub open spec fn keys_after_commit(
    keys: Seq<KeyView>,
    state: CoreView,
    batch: Seq<(KeyView, Seq<u8>)>,
) -> Seq<KeyView> {
    if turned_away(keys, state, batch) {
        keys
    } else {
        intern_all(keys, staged_keys(batch))
    }
}

/// The answer to an attempt to commit `batch`.
pub open spec fn commit_result(
    keys: Seq<KeyView>,
    state: CoreView,
    batch: Seq<(KeyView, Seq<u8>)>,
) -> CommitResult {
    let changes = resolved(keys_after_commit(keys, state, batch), batch);
    if state.shut_down {
        CommitResult::Refused(EngineErrorView::Shutdown)
    } else if keys.len() + batch.len() > MAX_KEYS {
        CommitResult::Refused(EngineErrorView::KeyIndexFull)
    } else if has_conflict(changes) {
        CommitResult::Refused(EngineErrorView::CommitConflict(changes[first_conflict(changes)].key))
    } else if state.current >= u64::MAX {
        CommitResult::Refused(EngineErrorView::VersionsExhausted)
    } else {
        CommitResult::Committed(state.current + 1)
    }
}

/// The graph after an attempt to commit `batch`: only a batch that is committed
/// changes what the graph holds; a batch that is refused for what it holds leaves
/// no more behind than the places of its keys.
pub open spec fn state_after_commit(
    keys: Seq<KeyView>,
    state: CoreView,
    batch: Seq<(KeyView, Seq<u8>)>,
) -> CoreView {
    let all = keys_after_commit(keys, state, batch);
    if commit_result(keys, state, batch) is Committed {
        state.with_keys(all.len()).after_commit(resolved(all, batch))
    } else {
        state.with_keys(all.len())
    }
}

/// The graph after one use of `version` was given back, if `really`.
pub open spec fn released(state: CoreView, version: u64, really: bool) -> CoreView {
    if really && state.active.count(version) > 0 {
        CoreView { active: state.active.remove(version), ..state }
    } else {
        state
    }
}

/// The engine.
pub struct DiceModern {
    key_index: DiceKeyIndex,
    state_handle: CoreState,
    global_data: DiceData,
    detect_cycles: DetectCycles,
}

/// Collects the injected data of an engine before the engine is built.
pub struct DiceModernDataBuilder(DiceData);

impl DiceModernDataBuilder {
    /// The data collected so far.
    pub closed spec fn data(&self) -> Map<u64, Seq<u8>> {
        self.0@
    }

    /// The invariant of the builder: its table is well formed.
    pub closed spec fn wf(&self) -> bool {
        self.0.wf()
    }

    /// A builder with an empty table.
    pub fn new() -> (b: DiceModernDataBuilder)
        ensures
            b.wf(),
            b.data() == Map::<u64, Seq<u8>>::empty(),
    {
        DiceModernDataBuilder(DiceData::new())
    }

    /// Offers `val` as the singleton of the type with tag `tag`. The first value
    /// offered for a type stays.
    pub fn set(&mut self, tag: u64, val: Vec<u8>)
        requires
            old(self).wf(),
        ensures
            final(self).wf(),
            final(self).data() == set_once(old(self).data(), tag, val@),
    {
        let _ = self.0.set(tag, val);
    }

    /// The engine with the collected data and the given cycle policy: no key, version
    /// 0, nothing running, no version in use.
    pub fn build(self, detect_cycles: DetectCycles) -> (dice: DiceModern)
        requires
            self.wf(),
        ensures
            dice.wf(),
            dice.keys() == Seq::<KeyView>::empty(),
            dice.state() == CoreView::initial(),
            dice.data() == self.data(),
            dice.policy() == detect_cycles,
    {
        let mut dice = DiceModern::new(self.0);
        dice.detect_cycles = detect_cycles;
        dice
    }
}

impl DiceModern {
    /// The keys of the engine, each at the position of its identifier.
    pub closed spec fn keys(&self) -> Seq<KeyView> {
        self.key_index@
    }

    /// The graph of the engine.
    pub closed spec fn state(&self) -> CoreView {
        self.state_handle@
    }

    /// The injected data of the engine.
    pub closed spec fn data(&self) -> Map<u64, Seq<u8>> {
        self.global_data@
    }

    /// The cycle policy of the engine.
    pub closed spec fn policy(&self) -> DetectCycles {
        self.detect_cycles
    }

    /// The invariant of the engine: its parts are well formed, and every key of the
    /// index has its place in the graph.
    pub closed spec fn wf(&self) -> bool {
        &&& self.key_index.wf()
        &&& self.state_handle.wf()
        &&& self.global_data.wf()
        &&& self.state_handle@.nodes.len() == self.key_index@.len()
    }

    /// What the invariant says of the graph.
    pub proof fn wf_state(&self)
        requires
            self.wf(),
        ensures
            self.state().wf(),
            self.state().nodes.len() == self.keys().len(),
            self.keys().len() <= MAX_KEYS,
    {
    }

    /// An engine with the given injected data that looks for cycles: no key, version
    /// 0, nothing running, no version in use.
    pub fn new(global_data: DiceData) -> (dice: DiceModern)
        requires
            global_data.wf(),
        ensures
            dice.wf(),
            dice.keys() == Seq::<KeyView>::empty(),
            dice.state() == CoreView::initial(),
            dice.data() == global_data@,
            dice.policy() == DetectCycles::Enabled,
    {
        let state_handle = CoreState::new();
        DiceModern {
            key_index: DiceKeyIndex::new(),
            state_handle,
            global_data,
            detect_cycles: DetectCycles::Enabled,
        }
    }

    /// The cycle policy that the engine was built with.
    pub fn detect_cycles(&self) -> (d: &DetectCycles)
        ensures
            *d == self.policy(),
    {
        &self.detect_cycles
    }

    /// The injected data of the engine.
    pub fn global_data(&self) -> (d: &DiceData)
        ensures
            d@ == self.data(),
            self.wf() ==> d.wf(),
    {
        &self.global_data
    }

    /// The graph of the engine, for reading.
    pub fn state_handle(&self) -> (s: &CoreState)
        ensures
            s@ == self.state(),
    {
        &self.state_handle
    }

    /// The key index of the engine, for reading.
    pub fn key_index(&self) -> (idx: &DiceKeyIndex)
        ensures
            idx@ == self.keys(),
    {
        &self.key_index
    }

    /// The version that new reads see.
    pub fn current_version(&self) -> (v: VersionNumber)
        ensures
            v@ == self.state().current,
    {
        self.state_handle.current_version()
    }

    /// Whether no version is in use: no transaction is open and no read is held.
    pub fn is_idle(&self) -> (idle: bool)
        ensures
            idle == (self.state().active.len() == 0),
    {
        self.state_handle.is_idle()
    }

    /// A chain of evaluations under the cycle policy of the engine.
    pub fn new_chain(&self) -> (c: EvaluationChain)
        ensures
            c@.frames == Seq::<FrameView>::empty(),
            c@.detect == self.policy(),
    {
        EvaluationChain::new(self.detect_cycles)
    }

    /// Gives `key` its identifier and its place in the graph. Equal keys get equal
    /// identifiers. Refused, with nothing changed, only where the key is new and all
    /// identifiers are taken.
    pub fn intern(&mut self, key: Key) -> (r: Result<KeyId, EngineError>)
        requires
            old(self).wf(),
        ensures
            final(self).wf(),
            final(self).data() == old(self).data(),
            final(self).policy() == old(self).policy(),
            knows(old(self).keys(), key@) || old(self).keys().len() < MAX_KEYS ==> {
                &&& r matches Ok(id)
                &&& id@ == interned(old(self).keys(), key@).1
                &&& final(self).keys() == interned(old(self).keys(), key@).0
                &&& final(self).state() == old(self).state().with_keys(final(self).keys().len())
            },
            !knows(old(self).keys(), key@) && old(self).keys().len() >= MAX_KEYS ==> {
                &&& r matches Err(e)
                &&& e@ == EngineErrorView::KeyIndexFull
                &&& final(self).keys() == old(self).keys()
                &&& final(self).state() == old(self).state()
            },
    {
        let before: usize = self.key_index.len();
        match self.key_index.intern(key) {
            Some(id) => {
                if self.key_index.len() > before {
                    self.state_handle.add_key();
                    assert(self.state_handle@ == old(self).state().with_keys(
                        self.key_index@.len(),
                    )) by {
                        assert(self.state_handle@.nodes =~= old(self).state().with_keys(
                            self.key_index@.len(),
                        ).nodes);
                    }
                } else {
                    assert(self.state_handle@ == old(self).state().with_keys(
                        self.key_index@.len(),
                    )) by {
                        assert(self.state_handle@.nodes =~= old(self).state().with_keys(
                            self.key_index@.len(),
                        ).nodes);
                    }
                }
                Ok(id)
            },
            None => Err(EngineError::KeyIndexFull),
        }
    }

    /// The key that `id` was given to, or `None` where the engine never gave `id` out.
    pub fn lookup(&self, id: KeyId) -> (r: Option<&Key>)
        ensures
            id@ < self.keys().len() ==> (r matches Some(k) && k@ == self.keys()[id@ as int]),
            id@ >= self.keys().len() ==> r is None,
    {
        self.key_index.lookup(id)
    }

    /// What the graph holds for `key` at `version`.
    pub fn read(&self, key: KeyId, version: VersionNumber) -> (s: NodeState)
        requires
            self.wf(),
        ensures
            s@ == self.state().state_of(key, version@),
    {
        self.state_handle.read(key, version)
    }

    /// Records one more use of `version`, so that the engine is not idle and the
    /// records of that version are kept.
    pub fn hold(&mut self, version: VersionNumber)
        requires
            old(self).wf(),
        ensures
            final(self).wf(),
            final(self).keys() == old(self).keys(),
            final(self).data() == old(self).data(),
            final(self).policy() == old(self).policy(),
            final(self).state() == (CoreView {
                active: old(self).state().active.insert(version.0),
                ..old(self).state()
            }),
    {
        self.state_handle.mark_active(version);
    }

    /// Gives one use of `version` back. Returns whether the version was in use.
    pub fn release(&mut self, version: VersionNumber) -> (released: bool)
        requires
            old(self).wf(),
        ensures
            final(self).wf(),
            final(self).keys() == old(self).keys(),
            final(self).data() == old(self).data(),
            final(self).policy() == old(self).policy(),
            released == (old(self).state().active.count(version.0) > 0),
            released ==> final(self).state() == (CoreView {
                active: old(self).state().active.remove(version.0),
                ..old(self).state()
            }),
            !released ==> final(self).state() == old(self).state(),
    {
        self.state_handle.release_active(version)
    }

    /// One step of resolving `key` at `version` on behalf of `chain`. The key is
    /// recorded as a dependency of the evaluation that asks for it. A key that the
    /// chain is already evaluating closes a cycle, which is reported and never
    /// awaited. An engine in teardown answers no request, and no request is answered
    /// at a version that was never installed. Otherwise the caller learns that the
    /// key is settled, or that another evaluation of it is running, or that it is the
    /// one to settle the key; in that last case the key's evaluation begins on the
    /// chain.
    pub fn request(
        &mut self,
        chain: &mut EvaluationChain,
        key: KeyId,
        version: VersionNumber,
    ) -> (r: Result<Step, EngineError>)
        requires
            old(self).wf(),
            old(self).state().knows(key),
            chain_fits(old(chain)@.frames, old(self).state().nodes.len()),
        ensures
            final(self).wf(),
            final(self).keys() == old(self).keys(),
            final(self).data() == old(self).data(),
            final(self).policy() == old(self).policy(),
            final(chain)@.detect == old(chain)@.detect,
            chain_fits(final(chain)@.frames, final(self).state().nodes.len()),
            old(chain)@.detect == DetectCycles::Enabled && on_chain(old(chain)@.frames, key) ==> {
                &&& r matches Err(e)
                &&& e@ == EngineErrorView::Cycle(cycle_through(old(chain)@.frames, key))
                &&& final(self).state() == old(self).state()
                &&& final(chain)@.frames == after_record(old(chain)@.frames, key)
            },
            !(old(chain)@.detect == DetectCycles::Enabled && on_chain(old(chain)@.frames, key))
                && old(self).state().shut_down ==> {
                &&& r matches Err(e)
                &&& e@ == EngineErrorView::Shutdown
                &&& final(self).state() == old(self).state()
                &&& final(chain)@.frames == after_record(old(chain)@.frames, key)
            },
            !(old(chain)@.detect == DetectCycles::Enabled && on_chain(old(chain)@.frames, key))
                && !old(self).state().shut_down && version@ > old(self).state().current ==> {
                &&& r matches Err(e)
                &&& e@ == EngineErrorView::UnknownVersion
                &&& final(self).state() == old(self).state()
                &&& final(chain)@.frames == after_record(old(chain)@.frames, key)
            },
            !(old(chain)@.detect == DetectCycles::Enabled && on_chain(old(chain)@.frames, key))
                && !old(self).state().shut_down && version@ <= old(self).state().current ==> {
                &&& r matches Ok(step)
                &&& step@ == step_of(old(self).state().claim_of(key, version@))
                &&& final(self).state() == old(self).state().after_claim(key, version@)
                &&& final(chain)@.frames == if step is Evaluate {
                    after_record(old(chain)@.frames, key).push(
                        FrameView { key, deps: Seq::empty() },
                    )
                } else {
                    after_record(old(chain)@.frames, key)
                }
            },
    {
        let ghost frames = chain@.frames;
        let ghost keys = self.state_handle@.nodes.len();
        chain.record(key);
        proof {
            let recorded = chain@.frames;
            assert(chain_fits(recorded, keys)) by {
                assert forall|i: int| 0 <= i < recorded.len() implies (#[trigger] recorded[i]).key@
                    < keys && forall|d: int|
                    0 <= d < recorded[i].deps.len() ==> (#[trigger] recorded[i].deps[d])@
                        < keys by {
                    assert(frames[i].key@ < keys);
                    assert forall|d: int| 0 <= d < recorded[i].deps.len() implies (
                    #[trigger] recorded[i].deps[d])@ < keys by {
                        if d < frames[i].deps.len() {
                            assert(frames[i].deps[d]@ < keys);
                        }
                    }
                }
            }
            assert(on_chain(recorded, key) == on_chain(frames, key)) by {
                if on_chain(frames, key) {
                    let i = choose|i: int|
                        0 <= i < frames.len() && (#[trigger] frames[i]).key == key;
                    assert(recorded[i].key == key);
                }
                if on_chain(recorded, key) {
                    let i = choose|i: int|
                        0 <= i < recorded.len() && (#[trigger] recorded[i]).key == key;
                    assert(frames[i].key == key);
                }
            }
        }
        if chain.detect() == DetectCycles::Enabled && chain.holds(key) {
            let ghost recorded = chain@.frames;
            match chain.enter(key) {
                Err(e) => {
                    proof {
                        assert(cycle_through(recorded, key) =~= cycle_through(frames, key)) by {
                            lemma_first_entry_exists(recorded, key);
                            lemma_first_entry_exists(frames, key);
                            let a = first_entry(recorded, key);
                            let b = first_entry(frames, key);
                            assert(frames[a].key == key);
                            assert(recorded[b].key == key);
                            assert(a == b);
                            assert(keys_of(recorded) =~= keys_of(
                                frames,
                            ));
                        }
                    }
                    return Err(e);
                },
                Ok(()) => {
                    assert(false);
                    return Err(EngineError::NotInFlight);
                },
            }
        }
        match self.state_handle.start_evaluation(key, version) {
            Err(e) => Err(e),
            Ok(Claim::Settled(state)) => Ok(Step::Ready(state)),
            Ok(Claim::Shared) => Ok(Step::Await),
            Ok(Claim::Granted(handle)) => {
                let ghost recorded = chain@.frames;
                let entered = chain.enter(key);
                proof {
                    let now = chain@.frames;
                    assert forall|i: int| 0 <= i < now.len() implies (#[trigger] now[i]).key@ < keys
                        && forall|d: int|
                        0 <= d < now[i].deps.len() ==> (#[trigger] now[i].deps[d])@ < keys by {
                        if i < recorded.len() {
                            assert(recorded[i].key@ < keys);
                        }
                    }
                }
                Ok(Step::Evaluate(handle))
            },
        }
    }

    /// Hands in the outcome of the evaluation that `handle` stands for, which must be
    /// the innermost one on `chain` and running. The outcome is published with the
    /// dependencies that the chain recorded for it, the evaluation ends on the chain
    /// and in the graph, and the number of callers to wake is returned. Any other
    /// handle is refused and changes nothing.
    pub fn complete(
        &mut self,
        chain: &mut EvaluationChain,
        handle: EvaluationHandle,
        outcome: Outcome,
    ) -> (r: Result<u64, EngineError>)
        requires
            old(self).wf(),
            chain_fits(old(chain)@.frames, old(self).state().nodes.len()),
        ensures
            final(self).wf(),
            final(self).keys() == old(self).keys(),
            final(self).data() == old(self).data(),
            final(self).policy() == old(self).policy(),
            final(chain)@.detect == old(chain)@.detect,
            chain_fits(final(chain)@.frames, final(self).state().nodes.len()),
            Self::completes(old(self).state(), old(chain)@.frames, handle@) ==> {
                &&& r matches Ok(w)
                &&& w == old(self).state().flights[flight_of(
                    old(self).state().flights,
                    handle@.key,
                    handle@.version,
                )].waiters
                &&& final(self).state() == old(self).state().after_finish(
                    handle@.key,
                    handle@.version,
                    outcome@,
                    old(chain)@.frames.last().deps,
                )
                &&& final(chain)@.frames == old(chain)@.frames.drop_last()
            },
            !Self::completes(old(self).state(), old(chain)@.frames, handle@) ==> {
                &&& r matches Err(e)
                &&& e@ == EngineErrorView::NotInFlight
                &&& final(self).state() == old(self).state()
                &&& final(chain)@ == old(chain)@
            },
    {
        let ghost frames = chain@.frames;
        let ghost keys = self.state_handle@.nodes.len();
        let matches_top: bool = match chain.innermost() {
            Some(k) => k.0 == handle.key().0,
            None => false,
        };
        if !matches_top || !self.state_handle.is_running(handle.key(), handle.version()) {
            return Err(EngineError::NotInFlight);
        }
        match chain.leave() {
            Some((_, deps)) => {
                proof {
                    assert forall|d: int| 0 <= d < deps@.len() implies self.state_handle@.knows(
                        #[trigger] deps@[d],
                    ) by {
                        assert(frames[frames.len() - 1].deps[d]@ < keys);
                    }
                    let now = chain@.frames;
                    assert forall|i: int| 0 <= i < now.len() implies (#[trigger] now[i]).key@ < keys
                        && forall|d: int|
                        0 <= d < now[i].deps.len() ==> (#[trigger] now[i].deps[d])@ < keys by {
                        assert(frames[i].key@ < keys);
                    }
                }
                self.state_handle.finish_evaluation(handle, outcome, deps)
            },
            None => {
                assert(false);
                Err(EngineError::NotInFlight)
            },
        }
    }

    /// Whether `handle` stands for the innermost evaluation on the chain and that
    /// evaluation is running.
    pub open spec fn completes(
        state: CoreView,
        frames: Seq<FrameView>,
        handle: HandleView,
    ) -> bool {
        &&& frames.len() > 0
        &&& frames.last().key == handle.key
        &&& in_flight(state.flights, handle.key, handle.version)
    }

    /// Early cutoff for the evaluation that `handle` stands for, which must be the
    /// innermost one on `chain` and running: where the key's latest earlier record
    /// still holds at the handle's version, that record is extended, the evaluation
    /// ends without a run of the computation body, and the number of callers to wake
    /// is returned. Where it does not, `None` is returned and nothing changes. Any
    /// other handle is refused and changes nothing.
    pub fn confirm(&mut self, chain: &mut EvaluationChain, handle: &EvaluationHandle) -> (r: Result<
        Option<u64>,
        EngineError,
    >)
        requires
            old(self).wf(),
            chain_fits(old(chain)@.frames, old(self).state().nodes.len()),
        ensures
            final(self).wf(),
            final(self).keys() == old(self).keys(),
            final(self).data() == old(self).data(),
            final(self).policy() == old(self).policy(),
            final(chain)@.detect == old(chain)@.detect,
            chain_fits(final(chain)@.frames, final(self).state().nodes.len()),
            !Self::completes(old(self).state(), old(chain)@.frames, handle@) ==> {
                &&& r matches Err(e)
                &&& e@ == EngineErrorView::NotInFlight
                &&& final(self).state() == old(self).state()
                &&& final(chain)@ == old(chain)@
            },
            Self::completes(old(self).state(), old(chain)@.frames, handle@) && old(
                self,
            ).state().still_valid(handle@.key, handle@.version) ==> {
                &&& r matches Ok(Some(w))
                &&& w == old(self).state().flights[flight_of(
                    old(self).state().flights,
                    handle@.key,
                    handle@.version,
                )].waiters
                &&& final(self).state() == old(self).state().after_revalidate(
                    handle@.key,
                    handle@.version,
                )
                &&& final(chain)@.frames == old(chain)@.frames.drop_last()
            },
            Self::completes(old(self).state(), old(chain)@.frames, handle@) && !old(
                self,
            ).state().still_valid(handle@.key, handle@.version) ==> {
                &&& r matches Ok(None)
                &&& final(self).state() == old(self).state()
                &&& final(chain)@ == old(chain)@
            },
    {
        let ghost frames = chain@.frames;
        let ghost keys = self.state_handle@.nodes.len();
        let matches_top: bool = match chain.innermost() {
            Some(k) => k.0 == handle.key().0,
            None => false,
        };
        if !matches_top {
            return Err(EngineError::NotInFlight);
        }
        match self.state_handle.revalidate(handle) {
            Err(e) => Err(e),
            Ok(None) => Ok(None),
            Ok(Some(w)) => {
                let _ = chain.leave();
                proof {
                    let now = chain@.frames;
                    assert forall|i: int| 0 <= i < now.len() implies (#[trigger] now[i]).key@ < keys
                        && forall|d: int|
                        0 <= d < now[i].deps.len() ==> (#[trigger] now[i].deps[d])@ < keys by {
                        assert(frames[i].key@ < keys);
                    }
                }
                Ok(Some(w))
            },
        }
    }

    /// Opens a transaction at the current version with nothing attached.
    pub fn updater(&mut self) -> (t: TransactionUpdater)
        requires
            old(self).wf(),
        ensures
            final(self).wf(),
            final(self).keys() == old(self).keys(),
            final(self).data() == old(self).data(),
            final(self).policy() == old(self).policy(),
            final(self).state() == (CoreView {
                active: old(self).state().active.insert(old(self).state().current as u64),
                ..old(self).state()
            }),
            t@ == (TransactionView {
                base: old(self).state().current as u64,
                staged: Seq::empty(),
                committed: false,
            }),
            t.attached().data@ == Map::<u64, Seq<u8>>::empty(),
    {
        self.updater_with_data(UserComputationData::new())
    }

    /// Opens a transaction at the current version with `extra` attached. The
    /// transaction holds a use of that version until it is committed or discarded.
    pub fn updater_with_data(&mut self, extra: UserComputationData) -> (t: TransactionUpdater)
        requires
            old(self).wf(),
        ensures
            final(self).wf(),
            final(self).keys() == old(self).keys(),
            final(self).data() == old(self).data(),
            final(self).policy() == old(self).policy(),
            final(self).state() == (CoreView {
                active: old(self).state().active.insert(old(self).state().current as u64),
                ..old(self).state()
            }),
            t@ == (TransactionView {
                base: old(self).state().current as u64,
                staged: Seq::empty(),
                committed: false,
            }),
            t.attached() == extra,
    {
        let base: VersionNumber = self.state_handle.current_version();
        self.state_handle.mark_active(base);
        TransactionUpdater::new(base, extra)
    }

    /// Commits a batch of staged changes as the next version: gives every key of
    /// the batch its identifier, then hands the changes to the graph. An engine in
    /// teardown, or one without room for the keys of the batch, turns the batch away
    /// untouched.
    pub fn commit_staged(&mut self, staged: &Vec<(Key, Vec<u8>)>) -> (r: Result<
        VersionNumber,
        EngineError,
    >)
        requires
            old(self).wf(),
        ensures
            final(self).wf(),
            final(self).data() == old(self).data(),
            final(self).policy() == old(self).policy(),
            result_view(r) == commit_result(
                old(self).keys(),
                old(self).state(),
                staged_view(staged@),
            ),
            final(self).keys() == keys_after_commit(
                old(self).keys(),
                old(self).state(),
                staged_view(staged@),
            ),
            final(self).state() == state_after_commit(
                old(self).keys(),
                old(self).state(),
                staged_view(staged@),
            ),
    {
        let ghost keys0 = self.keys();
        let ghost state0 = self.state();
        let ghost batch = staged_view(staged@);
        let ghost names = staged_keys(batch);
        if self.state_handle.is_shut_down() {
            proof {
                assert(state0.with_keys(keys0.len()).nodes =~= state0.nodes);
            }
            return Err(EngineError::Shutdown);
        }
        let n: usize = staged.len();
        if n > MAX_KEYS || self.key_index.len() > MAX_KEYS - n {
            proof {
                assert(state0.with_keys(keys0.len()).nodes =~= state0.nodes);
            }
            return Err(EngineError::KeyIndexFull);
        }
        let mut changes: Vec<InputChange> = Vec::new();
        let mut i: usize = 0;
        proof {
            assert(names.take(0) =~= Seq::<KeyView>::empty());
            assert(state0.with_keys(keys0.len()).nodes =~= state0.nodes);
        }
        while i < n
            invariant
                i <= n,
                n == staged@.len(),
                batch == staged_view(staged@),
                names == staged_keys(batch),
                self.wf(),
                distinct(keys0),
                keys0.len() + n <= MAX_KEYS,
                self.data() == old(self).data(),
                self.policy() == old(self).policy(),
                self.keys() == intern_all(keys0, names.take(i as int)),
                self.state() == state0.with_keys(self.keys().len()),
                changes@.len() == i,
                forall|j: int|
                    0 <= j < i ==> (#[trigger] changes@[j]).key@ < self.keys().len()
                        && self.keys()[changes@[j].key@ as int] == batch[j].0 && changes@[j].value@
                        == batch[j].1,
            decreases n - i,
        {
            let ghost keys1 = self.keys();
            let ghost state1 = self.state();
            let ghost done = names.take(i as int);
            proof {
                interning_all_keeps_distinct(keys0, done);
                assert(names.take(i as int + 1).drop_last() =~= done);
                assert(names.take(i as int + 1).last() == batch[i as int].0);
                interning_keeps_distinct(keys1, batch[i as int].0);
            }
            let key: Key = staged[i].0.duplicate();
            let value: Vec<u8> = copy_bytes(&staged[i].1);
            match self.intern(key) {
                Ok(id) => {
                    proof {
                        let keys2 = self.keys();
                        assert(state1.with_keys(keys2.len()).nodes =~= state0.with_keys(
                            keys2.len(),
                        ).nodes);
                        assert forall|j: int| 0 <= j < i implies (#[trigger] changes@[j]).key@
                            < keys2.len() && keys2[changes@[j].key@ as int] == batch[j].0 by {
                            ids_are_stable(
                                keys1,
                                batch[i as int].0,
                                changes@[j].key@ as int,
                            );
                        }
                    }
                    changes.push(InputChange { key: id, value });
                },
                Err(_) => {
                    assert(false);
                },
            }
            i = i + 1;
        }
        proof {
            assert(names.take(n as int) =~= names);
            interning_all_keeps_distinct(keys0, names);
            let all = self.keys();
            let c = batch_view(changes@);
            let goal = resolved(all, batch);
            assert forall|j: int| 0 <= j < n implies c[j] == goal[j] by {
                let k = changes@[j].key;
                assert(all[k@ as int] == batch[j].0);
                let x = id_of(all, batch[j].0);
                assert(0 <= x < all.len() && all[x] == batch[j].0);
                assert(x == k@);
                assert(KeyId(x as u32) == k);
            }
            assert(c =~= goal);
            assert forall|j: int| 0 <= j < c.len() implies self.state().knows(
                (#[trigger] c[j]).key,
            ) by {
                assert(changes@[j].key@ < all.len());
            }
        }
        self.state_handle.commit(&changes)
    }

    /// The graph as three tab-separated tables, for debugging tools: the records with
    /// their keys, the dependency edges, and the evaluations that are running.
    pub fn serialize_tsv(&self) -> (dump: GraphDump)
        requires
            self.wf(),
        ensures
            dump.nodes@ == nodes_table(
                self.keys(),
                self.state().nodes,
                self.state().nodes.len() as int,
            ),
            dump.edges@ == edges_table(self.state().nodes, self.state().nodes.len() as int),
            dump.nodes_currently_running@ == running_table(
                self.state().flights,
                self.state().flights.len() as int,
            ),
    {
        dump_graph(&self.key_index, &self.state_handle)
    }

    /// Gives up the evaluation that `handle` stands for, which must be the innermost
    /// one on `chain` and running. Where no other caller waits for it, the evaluation
    /// ends without an outcome, on the chain and in the graph, and `None` is
    /// returned. Where others share it, it must go on: nothing changes and the handle
    /// is handed back. Any other handle is refused and changes nothing.
    pub fn abandon(&mut self, chain: &mut EvaluationChain, handle: EvaluationHandle) -> (r: Result<
        Option<EvaluationHandle>,
        EngineError,
    >)
        requires
            old(self).wf(),
            chain_fits(old(chain)@.frames, old(self).state().nodes.len()),
        ensures
            final(self).wf(),
            final(self).keys() == old(self).keys(),
            final(self).data() == old(self).data(),
            final(self).policy() == old(self).policy(),
            final(chain)@.detect == old(chain)@.detect,
            chain_fits(final(chain)@.frames, final(self).state().nodes.len()),
            !Self::completes(old(self).state(), old(chain)@.frames, handle@) ==> {
                &&& r matches Err(e)
                &&& e@ == EngineErrorView::NotInFlight
                &&& final(self).state() == old(self).state()
                &&& final(chain)@ == old(chain)@
            },
            Self::completes(old(self).state(), old(chain)@.frames, handle@) && old(
                self,
            ).state().unshared(handle@.key, handle@.version) ==> {
                &&& r == Ok::<Option<EvaluationHandle>, EngineError>(None)
                &&& final(self).state() == old(self).state().after_cancel(
                    handle@.key,
                    handle@.version,
                )
                &&& final(chain)@.frames == old(chain)@.frames.drop_last()
            },
            Self::completes(old(self).state(), old(chain)@.frames, handle@) && !old(
                self,
            ).state().unshared(handle@.key, handle@.version) ==> {
                &&& r == Ok::<Option<EvaluationHandle>, EngineError>(Some(handle))
                &&& final(self).state() == old(self).state()
                &&& final(chain)@ == old(chain)@
            },
    {
        let ghost frames = chain@.frames;
        let ghost keys = self.state_handle@.nodes.len();
        let matches_top: bool = match chain.innermost() {
            Some(k) => k.0 == handle.key().0,
            None => false,
        };
        if !matches_top {
            return Err(EngineError::NotInFlight);
        }
        match self.state_handle.cancel_evaluation(handle) {
            Err(e) => Err(e),
            Ok(Some(h)) => Ok(Some(h)),
            Ok(None) => {
                let _ = chain.leave();
                proof {
                    let now = chain@.frames;
                    assert forall|i: int| 0 <= i < now.len() implies (#[trigger] now[i]).key@ < keys
                        && forall|d: int|
                        0 <= d < now[i].deps.len() ==> (#[trigger] now[i].deps[d])@ < keys by {
                        assert(frames[i].key@ < keys);
                    }
                }
                Ok(None)
            },
        }
    }

    /// Reclaims the records that nothing refers to any more. What readers of the
    /// current version and of the versions in use see does not change.
    pub fn reclaim(&mut self)
        requires
            old(self).wf(),
        ensures
            final(self).wf(),
            final(self).keys() == old(self).keys(),
            final(self).data() == old(self).data(),
            final(self).policy() == old(self).policy(),
            final(self).state() == old(self).state().after_reclaim(),
    {
        self.state_handle.reclaim();
    }

    /// Whether `chain` may ask this engine for `key`: the key has its place in the
    /// graph, and the chain names only keys of this engine.
    pub fn admits(&self, chain: &EvaluationChain, key: KeyId) -> (b: bool)
        ensures
            b == (self.state().knows(key) && chain_fits(
                chain@.frames,
                self.state().nodes.len(),
            )),
    {
        self.state_handle.knows_key(key) && chain.fits(self.state_handle.key_count())
    }

    /// Begins teardown: from now on commits and new evaluations are refused.
    pub fn shut_down(&mut self)
        requires
            old(self).wf(),
        ensures
            final(self).wf(),
            final(self).keys() == old(self).keys(),
            final(self).data() == old(self).data(),
            final(self).policy() == old(self).policy(),
            final(self).state() == (CoreView { shut_down: true, ..old(self).state() }),
    {
        self.state_handle.shut_down();
    }
}

} // verus!
