//! The core state authority: the single owner of the versioned memo graph. Every
//! change of the graph (a commit, the start and the end of an evaluation, the
//! bookkeeping of versions in use) is one call on `CoreState`, so the calls are the
//! serialization points of the engine.

use vstd::prelude::*;
use vstd::multiset::Multiset;
use vstd::seq_lib::{to_multiset_build, to_multiset_contains, to_multiset_len, to_multiset_remove};
use crate::change::{batch_view, find_change, find_conflict, InputChange};
use crate::error::{EngineError, EngineErrorView};
use crate::history::{any_between, find_covering, find_latest, find_predecessor};
use crate::invalidate::{spread, stage};
use crate::key::KeyId;
use crate::model::{
    first_conflict, flight_of, has_conflict, in_flight, is_latest, lemma_cancel_keeps_wf,
    lemma_commit_keeps_wf, lemma_finish_keeps_wf, lemma_reclaim_keeps_wf,
    lemma_revalidate_keeps_wf, settled_state, ClaimView, CoreView, Flight, HandleView,
    NodeStateView, CHANGED, CONFIRMED, DIRTY, UNTOUCHED,
};
use crate::node::{
    copy_bytes, copy_ids, covered, covers, graph_view, has_predecessor, history_view, history_wf,
    predecessor, same_ids, Entry, EntryView, Outcome,
};
use crate::version::VersionNumber;

verus! {

/// What the graph holds for a key at a version.
#[derive(Debug, PartialEq, Eq)]
pub enum NodeState {
    /// Nothing is known to hold at that version.
    Missing,
    /// An evaluation is running.
    InFlight,
    /// The evaluation gave a value, reading exactly the keys in `deps`.
    Done { value: Vec<u8>, deps: Vec<KeyId> },
    /// The computation body failed.
    Failed(Vec<u8>),
    /// The evaluation ran into a cycle.
    Cycle(Vec<KeyId>),
}

impl View for NodeState {
    type V = NodeStateView;

    open spec fn view(&self) -> NodeStateView {
        match self {
            NodeState::Missing => NodeStateView::Missing,
            NodeState::InFlight => NodeStateView::InFlight,
            NodeState::Done { value, deps } => NodeStateView::Done { value: value@, deps: deps@ },
            NodeState::Failed(b) => NodeStateView::Failed(b@),
            NodeState::Cycle(c) => NodeStateView::Cycle(c@),
        }
    }
}

/// The mathematical content of what a caller of `compute` gets.
pub enum AnswerView {
    Value(Seq<u8>),
    Refused(EngineErrorView),
}

/// What the caller that asked for the key gets, once the key is settled: the value,
/// or the failure of the computation body, or the cycle. An unsettled key gives
/// nothing yet.
pub open spec fn answer_of(state: NodeStateView) -> Option<AnswerView> {
    match state {
        NodeStateView::Done { value, .. } => Some(AnswerView::Value(value)),
        NodeStateView::Failed(b) => Some(AnswerView::Refused(EngineErrorView::Evaluation(b))),
        NodeStateView::Cycle(c) => Some(AnswerView::Refused(EngineErrorView::Cycle(c))),
        NodeStateView::Missing => None,
        NodeStateView::InFlight => None,
    }
}

/// The mathematical content of an answer.
pub open spec fn answer_view(r: Option<Result<Vec<u8>, EngineError>>) -> Option<AnswerView> {
    match r {
        Some(Ok(v)) => Some(AnswerView::Value(v@)),
        Some(Err(e)) => Some(AnswerView::Refused(e@)),
        None => None,
    }
}

impl NodeState {
    /// What the caller that asked for the key gets.
    pub fn into_answer(self) -> (r: Option<Result<Vec<u8>, EngineError>>)
        ensures
            answer_view(r) == answer_of(self@),
    {
        match self {
            NodeState::Done { value, deps: _ } => Some(Ok(value)),
            NodeState::Failed(b) => Some(Err(EngineError::Evaluation(b))),
            NodeState::Cycle(c) => Some(Err(EngineError::Cycle(c))),
            NodeState::Missing => None,
            NodeState::InFlight => None,
        }
    }
}

/// The right to settle one key at one version. Where the key has an earlier record,
/// the handle carries the dependencies of the latest one: if none of them changed
/// since, that record still holds and the computation body need not run.
#[derive(Debug, PartialEq, Eq)]
pub struct EvaluationHandle {
    key: KeyId,
    version: VersionNumber,
    recheck: Option<Vec<KeyId>>,
}

impl View for EvaluationHandle {
    type V = HandleView;

    closed spec fn view(&self) -> HandleView {
        HandleView {
            key: self.key,
            version: self.version@,
            recheck: match self.recheck {
                Some(d) => Some(d@),
                None => None,
            },
        }
    }
}

impl EvaluationHandle {
    /// The key to settle.
    pub fn key(&self) -> (k: KeyId)
        ensures
            k == self@.key,
    {
        self.key
    }

    /// The version to settle it at.
    pub fn version(&self) -> (v: VersionNumber)
        ensures
            v@ == self@.version,
    {
        self.version
    }

    /// The dependencies of the key's latest earlier record, if it has one.
    pub fn recheck(&self) -> (d: Option<Vec<KeyId>>)
        ensures
            d is Some == self@.recheck is Some,
            d matches Some(ids) ==> self@.recheck == Some(ids@),
    {
        match &self.recheck {
            Some(ids) => Some(copy_ids(ids)),
            None => None,
        }
    }
}

/// The answer to a request to evaluate a key at a version.
#[derive(Debug, PartialEq, Eq)]
pub enum Claim {
    /// The caller is the one to settle the key; nobody else will be until it has.
    Granted(EvaluationHandle),
    /// Another evaluation is running; the caller awaits its result.
    Shared,
    /// A record already holds at that version.
    Settled(NodeState),
}

impl View for Claim {
    type V = ClaimView;

    open spec fn view(&self) -> ClaimView {
        match self {
            Claim::Granted(h) => ClaimView::Granted(h@),
            Claim::Shared => ClaimView::Shared,
            Claim::Settled(s) => ClaimView::Settled(s@),
        }
    }
}

/// The position among `flights` of the evaluation of `key` at version `v`, if it is running.
pub fn find_flight(flights: &Vec<Flight>, key: KeyId, v: u64) -> (r: Option<usize>)
    ensures
        in_flight(flights@, key, v as nat) == r.is_some(),
        r matches Some(i) ==> i < flights@.len() && flights@[i as int].key == key
            && flights@[i as int].version == v,
        r matches Some(i) ==> forall|j: int|
            0 <= j < i ==> !((#[trigger] flights@[j]).key == key && flights@[j].version == v),
{
    let n: usize = flights.len();
    let mut i: usize = 0;
    while i < n
        invariant
            i <= n,
            n == flights@.len(),
            forall|j: int|
                0 <= j < i ==> !((#[trigger] flights@[j]).key == key && flights@[j].version == v),
        decreases n - i,
    {
        if flights[i].key.0 == key.0 && flights[i].version == v {
            assert(flights@[i as int].key == key);
            return Some(i);
        }
        i = i + 1;
    }
    None
}

/// What a settled record says to a reader, as a value of its own.
pub fn entry_state(e: &Entry) -> (s: NodeState)
    ensures
        s@ == settled_state(e@),
{
    match &e.outcome {
        Outcome::Value(b) => NodeState::Done { value: copy_bytes(b), deps: copy_ids(&e.deps) },
        Outcome::Failed(b) => NodeState::Failed(copy_bytes(b)),
        Outcome::Cycle(c) => NodeState::Cycle(copy_ids(c)),
    }
}

/// The single owner of the versioned memo graph.
pub struct CoreState {
    current: u64,
    nodes: Vec<Vec<Entry>>,
    flights: Vec<Flight>,
    active: Vec<u64>,
    shut_down: bool,
}

impl View for CoreState {
    type V = CoreView;

    closed spec fn view(&self) -> CoreView {
        CoreView {
            current: self.current as nat,
            nodes: graph_view(self.nodes@),
            flights: self.flights@,
            active: self.active@.to_multiset(),
            shut_down: self.shut_down,
        }
    }
}

impl CoreState {
    /// The invariant that every operation keeps.
    pub open spec fn wf(&self) -> bool {
        self@.wf()
    }

    /// A graph without keys, at version 0, with no version in use.
    pub fn new() -> (s: CoreState)
        ensures
            s.wf(),
            s@ == CoreView::initial(),
    {
        let s = CoreState {
            current: 0,
            nodes: Vec::new(),
            flights: Vec::new(),
            active: Vec::new(),
            shut_down: false,
        };
        proof {
            assert(s@.nodes =~= Seq::<Seq<EntryView>>::empty());
            assert(s.active@ =~= Seq::<u64>::empty());
            to_multiset_len(s.active@);
            assert(s@.active =~= Multiset::<u64>::empty());
        }
        s
    }

    /// A graph without keys whose first version is `version`, with nothing running
    /// and no version in use.
    pub fn starting_at(version: VersionNumber) -> (s: CoreState)
        ensures
            s.wf(),
            s@ == (CoreView { current: version@, ..CoreView::initial() }),
    {
        let s = CoreState {
            current: version.0,
            nodes: Vec::new(),
            flights: Vec::new(),
            active: Vec::new(),
            shut_down: false,
        };
        proof {
            assert(s@.nodes =~= Seq::<Seq<EntryView>>::empty());
            assert(s.active@ =~= Seq::<u64>::empty());
            to_multiset_len(s.active@);
            assert(s@.active =~= Multiset::<u64>::empty());
        }
        s
    }

    /// The version that new reads see.
    pub fn current_version(&self) -> (v: VersionNumber)
        ensures
            v@ == self@.current,
    {
        VersionNumber(self.current)
    }

    /// The number of keys that have a place in the graph.
    pub fn key_count(&self) -> (n: usize)
        ensures
            n == self@.nodes.len(),
    {
        self.nodes.len()
    }

    /// Whether teardown has begun.
    pub fn is_shut_down(&self) -> (b: bool)
        ensures
            b == self@.shut_down,
    {
        self.shut_down
    }

    /// Gives the next identifier a place in the graph, with an empty history.
    pub fn add_key(&mut self)
        requires
            old(self).wf(),
        ensures
            final(self).wf(),
            final(self)@ == (CoreView {
                nodes: old(self)@.nodes.push(Seq::<EntryView>::empty()),
                ..old(self)@
            }),
    {
        let ghost before = self@;
        self.nodes.push(Vec::new());
        proof {
            let after = self@;
            assert(history_view(Seq::<Entry>::empty()) =~= Seq::<EntryView>::empty());
            assert(after.nodes =~= before.nodes.push(Seq::<EntryView>::empty()));
            assert forall|k: int| 0 <= k < before.nodes.len() implies after.nodes[k]
                == before.nodes[k] by {}
        }
    }

    /// Whether `key` has a place in the graph.
    pub fn knows_key(&self, key: KeyId) -> (b: bool)
        ensures
            b == self@.knows(key),
    {
        key.index() < self.nodes.len()
    }

    /// What the graph holds for `key` at `version`: a running evaluation, the record
    /// that holds at that version, or nothing.
    pub fn read(&self, key: KeyId, version: VersionNumber) -> (s: NodeState)
        requires
            self.wf(),
        ensures
            s@ == self@.state_of(key, version@),
    {
        let k: usize = key.index();
        if k < self.nodes.len() {
            assert(self@.nodes[k as int] == history_view(self.nodes@[k as int]@));
            match find_covering(&self.nodes[k], version.0) {
                Some(i) => {
                    assert(history_view(self.nodes@[k as int]@)[i as int]
                        == self.nodes@[k as int]@[i as int]@);
                    return entry_state(&self.nodes[k][i]);
                },
                None => {},
            }
        }
        if find_flight(&self.flights, key, version.0).is_some() {
            NodeState::InFlight
        } else {
            NodeState::Missing
        }
    }

    /// Records one more use of `version`: a transaction or a read holds it.
    pub fn mark_active(&mut self, version: VersionNumber)
        ensures
            final(self)@ == (CoreView {
                active: old(self)@.active.insert(version.0),
                ..old(self)@
            }),
    {
        proof {
            to_multiset_build(self.active@, version.0);
        }
        self.active.push(version.0);
    }

    /// Gives one use of `version` back. Returns whether the version was in use; where
    /// it was not, nothing changes.
    pub fn release_active(&mut self, version: VersionNumber) -> (released: bool)
        ensures
            released == (old(self)@.active.count(version.0) > 0),
            released ==> final(self)@ == (CoreView {
                active: old(self)@.active.remove(version.0),
                ..old(self)@
            }),
            !released ==> final(self)@ == old(self)@,
    {
        proof {
            to_multiset_contains(self.active@, version.0);
        }
        let n: usize = self.active.len();
        let mut i: usize = 0;
        while i < n
            invariant
                i <= n,
                n == self.active@.len(),
                *self == *old(self),
                forall|j: int| 0 <= j < i ==> self.active@[j] != version.0,
            decreases n - i,
        {
            if self.active[i] == version.0 {
                proof {
                    to_multiset_remove(self.active@, i as int);
                    to_multiset_contains(self.active@, version.0);
                    assert(self.active@[i as int] == version.0);
                    assert(self.active@.contains(version.0));
                }
                self.active.remove(i);
                return true;
            }
            i = i + 1;
        }
        assert(!self.active@.contains(version.0));
        false
    }

    /// The number of uses of versions that were marked and not yet released.
    pub fn active_count(&self) -> (n: usize)
        ensures
            n == self@.active.len(),
    {
        proof {
            to_multiset_len(self.active@);
        }
        self.active.len()
    }

    /// Whether no version is in use.
    pub fn is_idle(&self) -> (idle: bool)
        ensures
            idle == (self@.active.len() == 0),
    {
        proof {
            to_multiset_len(self.active@);
        }
        self.active.len() == 0
    }

    /// Asks for the right to settle `key` at `version`. Exactly one caller at a time
    /// is granted it for a pair of key and version; others learn that the evaluation
    /// is running, or get the record that already holds. An engine in teardown
    /// grants nothing, and nothing is granted at a version that was never installed.
    pub fn start_evaluation(&mut self, key: KeyId, version: VersionNumber) -> (r: Result<
        Claim,
        EngineError,
    >)
        requires
            old(self).wf(),
            old(self)@.knows(key),
        ensures
            final(self).wf(),
            old(self)@.shut_down ==> (r matches Err(e) && e@ == EngineErrorView::Shutdown
                && final(self)@ == old(self)@),
            !old(self)@.shut_down && version@ > old(self)@.current ==> (r matches Err(e) && e@
                == EngineErrorView::UnknownVersion && final(self)@ == old(self)@),
            !old(self)@.shut_down && version@ <= old(self)@.current ==> (r matches Ok(c) && c@
                == old(self)@.claim_of(key, version@) && final(self)@ == old(self)@.after_claim(
                key,
                version@,
            )),
    {
        if self.shut_down {
            return Err(EngineError::Shutdown);
        }
        if version.0 > self.current {
            return Err(EngineError::UnknownVersion);
        }
        let ghost before = self@;
        let k: usize = key.index();
        assert(before.nodes[k as int] == history_view(self.nodes@[k as int]@));
        match find_covering(&self.nodes[k], version.0) {
            Some(i) => {
                assert(history_view(self.nodes@[k as int]@)[i as int]
                    == self.nodes@[k as int]@[i as int]@);
                return Ok(Claim::Settled(entry_state(&self.nodes[k][i])));
            },
            None => {},
        }
        match find_flight(&self.flights, key, version.0) {
            Some(i) => {
                let f: Flight = self.flights[i];
                let w: u64 = if f.waiters < u64::MAX {
                    f.waiters + 1
                } else {
                    f.waiters
                };
                proof {
                    let c = flight_of(before.flights, key, version@);
                    assert(before.flights[c].key == key && before.flights[c].version == version@);
                    assert(c == i);
                }
                self.flights.set(i, Flight { key: f.key, version: f.version, waiters: w });
                proof {
                    let after = self@;
                    assert(after.nodes =~= before.nodes);
                    assert(after.flights =~= before.after_claim(key, version@).flights);
                    assert forall|g: int| 0 <= g < after.flights.len() implies (
                    #[trigger] after.flights[g]).key == before.flights[g].key
                        && after.flights[g].version == before.flights[g].version by {}
                }
                Ok(Claim::Shared)
            },
            None => {
                let found: Option<usize> = find_predecessor(&self.nodes[k], version.0);
                let recheck: Option<Vec<KeyId>> = match found {
                    Some(p) => {
                        assert(history_view(self.nodes@[k as int]@)[p as int]
                            == self.nodes@[k as int]@[p as int]@);
                        Some(copy_ids(&self.nodes[k][p].deps))
                    },
                    None => None,
                };
                self.flights.push(Flight { key, version: version.0, waiters: 0 });
                proof {
                    let after = self@;
                    assert(after.nodes =~= before.nodes);
                    assert forall|f: int| 0 <= f < before.flights.len() implies (
                    #[trigger] after.flights[f]) == before.flights[f] by {}
                }
                Ok(Claim::Granted(EvaluationHandle { key, version, recheck }))
            },
        }
    }

    /// Publishes the outcome of the evaluation that `handle` stands for, with the keys
    /// that the evaluation read, and ends the evaluation. Returns the number of callers
    /// that shared the evaluation and are to be woken. A handle whose evaluation is
    /// not running is refused and changes nothing.
    pub fn finish_evaluation(
        &mut self,
        handle: EvaluationHandle,
        outcome: Outcome,
        deps: Vec<KeyId>,
    ) -> (r: Result<u64, EngineError>)
        requires
            old(self).wf(),
            old(self)@.knows_all(deps@),
        ensures
            final(self).wf(),
            in_flight(old(self)@.flights, handle@.key, handle@.version) ==> (r matches Ok(w) && w
                == old(self)@.flights[flight_of(
                old(self)@.flights,
                handle@.key,
                handle@.version,
            )].waiters && final(self)@ == old(self)@.after_finish(
                handle@.key,
                handle@.version,
                outcome@,
                deps@,
            )),
            !in_flight(old(self)@.flights, handle@.key, handle@.version) ==> (r matches Err(e)
                && e@ == EngineErrorView::NotInFlight && final(self)@ == old(self)@),
    {
        let key: KeyId = handle.key;
        let v: u64 = handle.version.0;
        let ghost before = self@;
        let fi: usize = match find_flight(&self.flights, key, v) {
            Some(i) => i,
            None => {
                return Err(EngineError::NotInFlight);
            },
        };
        let k: usize = key.index();
        let waiters: u64 = self.flights[fi].waiters;
        proof {
            let c = flight_of(before.flights, key, v as nat);
            assert(before.flights[c].key == key && before.flights[c].version == v);
            assert(c == fi);
            assert(before.knows(before.flights[fi as int].key));
            assert(before.nodes[k as int] == history_view(self.nodes@[k as int]@));
        }
        let ghost h = before.nodes[k as int];
        let held: bool = find_covering(&self.nodes[k], v).is_some();
        let pred: Option<usize> = find_predecessor(&self.nodes[k], v);
        let extend: Option<usize> = match pred {
            Some(p) => {
                assert(h[p as int] == self.nodes@[k as int]@[p as int]@);
                if self.nodes[k][p].through == v - 1 && self.nodes[k][p].outcome.same_as(&outcome)
                    && same_ids(&self.nodes[k][p].deps, &deps) {
                    Some(p)
                } else {
                    None
                }
            },
            None => None,
        };
        self.flights.remove(fi);
        if !held {
            match extend {
                Some(p) => {
                    self.nodes[k][p].through = v;
                },
                None => {
                    self.nodes[k].push(Entry { since: v, through: v, outcome, deps });
                },
            }
        }
        proof {
            let after = self@;
            let goal = before.after_finish(key, v as nat, outcome@, deps@);
            assert(after.nodes[k as int] =~= goal.nodes[k as int]);
            assert(after.nodes =~= goal.nodes);
            assert(after.flights =~= goal.flights);
            assert(after == goal);
            lemma_finish_keeps_wf(before, key, v as nat, outcome@, deps@);
        }
        Ok(waiters)
    }

    /// Early cutoff: checks whether the latest earlier record of the handle's key
    /// still holds at the handle's version, which it does where none of its
    /// dependencies changed in between. If so, the record is extended to that version
    /// without running the computation body, the evaluation ends, and the number of
    /// callers to wake is returned. If not, nothing changes and `None` is returned:
    /// the caller runs the body and finishes the evaluation.
    pub fn revalidate(&mut self, handle: &EvaluationHandle) -> (r: Result<Option<u64>, EngineError>)
        requires
            old(self).wf(),
        ensures
            final(self).wf(),
            !in_flight(old(self)@.flights, handle@.key, handle@.version) ==> (r matches Err(e)
                && e@ == EngineErrorView::NotInFlight && final(self)@ == old(self)@),
            in_flight(old(self)@.flights, handle@.key, handle@.version) && old(self)@.still_valid(
                handle@.key,
                handle@.version,
            ) ==> (r matches Ok(Some(w)) && w == old(self)@.flights[flight_of(
                old(self)@.flights,
                handle@.key,
                handle@.version,
            )].waiters && final(self)@ == old(self)@.after_revalidate(
                handle@.key,
                handle@.version,
            )),
            in_flight(old(self)@.flights, handle@.key, handle@.version) && !old(
                self,
            )@.still_valid(handle@.key, handle@.version) ==> (r matches Ok(None) && final(self)@
                == old(self)@),
    {
        let key: KeyId = handle.key;
        let v: u64 = handle.version.0;
        let ghost before = self@;
        let fi: usize = match find_flight(&self.flights, key, v) {
            Some(i) => i,
            None => {
                return Err(EngineError::NotInFlight);
            },
        };
        let k: usize = key.index();
        let waiters: u64 = self.flights[fi].waiters;
        proof {
            let c = flight_of(before.flights, key, v as nat);
            assert(before.flights[c].key == key && before.flights[c].version == v);
            assert(c == fi);
            assert(before.knows(before.flights[fi as int].key));
            assert(before.nodes[k as int] == history_view(self.nodes@[k as int]@));
        }
        let ghost h = before.nodes[k as int];
        if find_covering(&self.nodes[k], v).is_some() {
            return Ok(None);
        }
        let p: usize = match find_predecessor(&self.nodes[k], v) {
            Some(p) => p,
            None => {
                return Ok(None);
            },
        };
        assert(h[p as int] == self.nodes@[k as int]@[p as int]@);
        let t: u64 = self.nodes[k][p].through;
        let n: usize = self.nodes[k][p].deps.len();
        let mut d: usize = 0;
        while d < n
            invariant
                d <= n,
                *self == *old(self),
                before == self@,
                self.wf(),
                k < self.nodes@.len(),
                p < self.nodes@[k as int]@.len(),
                h == before.nodes[k as int],
                h[p as int] == self.nodes@[k as int]@[p as int]@,
                n == h[p as int].deps.len(),
                t == h[p as int].through,
                key == handle@.key,
                v == handle@.version,
                k == key@,
                in_flight(before.flights, key, v as nat),
                !covered(h, v as nat),
                has_predecessor(h, v as nat),
                p == predecessor(h, v as nat),
                forall|j: int|
                    0 <= j < d ==> before.unchanged_between(
                        #[trigger] h[p as int].deps[j],
                        t as nat,
                        v as nat,
                    ),
            decreases n - d,
        {
            let dep: KeyId = self.nodes[k][p].deps[d];
            let dk: usize = dep.index();
            proof {
                assert(before.nodes[k as int][p as int].deps[d as int]@ < before.nodes.len());
                assert(before.nodes[dk as int] == history_view(self.nodes@[dk as int]@));
            }
            match find_covering(&self.nodes[dk], v) {
                Some(c) => {
                    assert(before.nodes[dk as int][c as int] == self.nodes@[dk as int]@[c as int]@);
                    if self.nodes[dk][c].since > t {
                        assert(!before.unchanged_between(
                            h[p as int].deps[d as int],
                            t as nat,
                            v as nat,
                        ));
                        return Ok(None);
                    }
                },
                None => {
                    assert(!before.unchanged_between(
                        h[p as int].deps[d as int],
                        t as nat,
                        v as nat,
                    ));
                    return Ok(None);
                },
            }
            d = d + 1;
        }
        assert(before.still_valid(key, v as nat));
        self.flights.remove(fi);
        self.nodes[k][p].through = v;
        proof {
            let after = self@;
            let goal = before.after_revalidate(key, v as nat);
            assert(after.nodes[k as int] =~= goal.nodes[k as int]);
            assert(after.nodes =~= goal.nodes);
            assert(after.flights =~= goal.flights);
            assert(after == goal);
            lemma_revalidate_keeps_wf(before, key, v as nat);
        }
        Ok(Some(waiters))
    }

    /// Commits a batch of input changes as the next version. A batch that sets a key
    /// to two different values is refused, and so is any batch once teardown has
    /// begun or the version counter is spent; a refused batch changes nothing and
    /// consumes no version. Otherwise the version advances by exactly one, the
    /// changed keys get their new values, every key that rests on a changed key
    /// becomes dirty, and every other record that held at the old version holds at
    /// the new one too.
    pub fn commit(&mut self, changes: &Vec<InputChange>) -> (r: Result<VersionNumber, EngineError>)
        requires
            old(self).wf(),
            old(self)@.knows_changes(batch_view(changes@)),
        ensures
            final(self).wf(),
            r is Err ==> final(self)@ == old(self)@,
            old(self)@.shut_down ==> (r matches Err(e) && e@ == EngineErrorView::Shutdown),
            !old(self)@.shut_down && has_conflict(batch_view(changes@)) ==> (r matches Err(e) && e@
                == EngineErrorView::CommitConflict(
                batch_view(changes@)[first_conflict(batch_view(changes@))].key,
            )),
            !old(self)@.shut_down && !has_conflict(batch_view(changes@)) && old(self)@.current
                >= u64::MAX ==> (r matches Err(e) && e@ == EngineErrorView::VersionsExhausted),
            !old(self)@.shut_down && !has_conflict(batch_view(changes@)) && old(self)@.current
                < u64::MAX ==> (r matches Ok(v) && v@ == old(self)@.current + 1 && final(self)@
                == old(self)@.after_commit(batch_view(changes@))),
    {
        let ghost before = self@;
        let ghost c = batch_view(changes@);
        if self.shut_down {
            return Err(EngineError::Shutdown);
        }
        match find_conflict(changes) {
            Some(j) => {
                assert(c[j as int] == changes@[j as int]@);
                return Err(EngineError::CommitConflict(changes[j].key));
            },
            None => {},
        }
        if self.current == u64::MAX {
            return Err(EngineError::VersionsExhausted);
        }
        let next: u64 = self.current + 1;
        let mut marks: Vec<u8> = stage(&self.nodes, self.current, changes, Ghost(before));
        proof {
            assert forall|j: int| 0 <= j < marks@.len() implies #[trigger] marks@[j] != DIRTY by {
                assert(marks@[j] == before.stage_mark(c, j));
            }
        }
        spread(&self.nodes, self.current, &mut marks, Ghost(before));
        let n: usize = self.nodes.len();
        let mut k: usize = 0;
        while k < n
            invariant
                k <= n,
                n == self.nodes@.len(),
                n == before.nodes.len(),
                before.wf(),
                before == old(self)@,
                c == batch_view(changes@),
                !has_conflict(c),
                next == before.current + 1,
                self.current == before.current,
                self.flights == old(self).flights,
                self.active == old(self).active,
                self.shut_down == old(self).shut_down,
                marks@ == before.spread(before.stage_marks(c)),
                forall|j: int|
                    0 <= j < k ==> #[trigger] graph_view(self.nodes@)[j]
                        == before.history_after_commit(c, j),
                forall|j: int|
                    k <= j < n ==> #[trigger] graph_view(self.nodes@)[j] == before.nodes[j],
            decreases n - k,
        {
            let ghost mid = graph_view(self.nodes@);
            let ghost h = before.nodes[k as int];
            proof {
                assert(mid[k as int] == h);
                assert(h == history_view(self.nodes@[k as int]@));
                assert(marks@[k as int] == before.spread(before.stage_marks(c))[k as int]);
                assert(before.stage_marks(c)[k as int] == before.stage_mark(c, k as int));
            }
            let mark: u8 = marks[k];
            if mark == CHANGED {
                match find_change(changes, k) {
                    Some(i) => {
                        let value: Vec<u8> = copy_bytes(&changes[i].value);
                        self.nodes[k].push(
                            Entry {
                                since: next,
                                through: next,
                                outcome: Outcome::Value(value),
                                deps: Vec::new(),
                            },
                        );
                    },
                    None => {
                        assert(false);
                    },
                }
            } else if mark == CONFIRMED || mark == UNTOUCHED {
                match find_covering(&self.nodes[k], self.current) {
                    Some(x) => {
                        self.nodes[k][x].through = next;
                    },
                    None => {},
                }
            }
            proof {
                let after = graph_view(self.nodes@);
                assert(after[k as int] =~= before.history_after_commit(c, k as int));
                assert forall|j: int| 0 <= j < k implies #[trigger] after[j]
                    == before.history_after_commit(c, j) by {
                    assert(after[j] == mid[j]);
                }
                assert forall|j: int| k < j < n implies #[trigger] after[j] == before.nodes[j] by {
                    assert(after[j] == mid[j]);
                }
            }
            k = k + 1;
        }
        self.current = next;
        proof {
            assert(self@.nodes =~= before.after_commit(c).nodes);
            lemma_commit_keeps_wf(before, c);
        }
        Ok(VersionNumber(next))
    }

    /// Whether an evaluation of `key` at `version` is running.
    pub fn is_running(&self, key: KeyId, version: VersionNumber) -> (b: bool)
        ensures
            b == in_flight(self@.flights, key, version@),
    {
        find_flight(&self.flights, key, version.0).is_some()
    }

    /// The number of evaluations that are running.
    pub fn running_count(&self) -> (n: usize)
        ensures
            n == self@.flights.len(),
    {
        self.flights.len()
    }

    /// The histories of the graph, for the modules that read them record by record.
    pub(crate) fn histories(&self) -> (n: &Vec<Vec<Entry>>)
        ensures
            graph_view(n@) == self@.nodes,
    {
        &self.nodes
    }

    /// The evaluations that are running, in the order in which they were claimed.
    pub fn flights(&self) -> (f: &Vec<Flight>)
        ensures
            f@ == self@.flights,
    {
        &self.flights
    }

    /// Gives up the evaluation that `handle` stands for, on behalf of the caller that
    /// runs it. An evaluation that no other caller waits for is ended without an
    /// outcome, and `None` is returned. An evaluation that others share must go on:
    /// nothing changes and the handle is handed back.
    pub fn cancel_evaluation(&mut self, handle: EvaluationHandle) -> (r: Result<
        Option<EvaluationHandle>,
        EngineError,
    >)
        requires
            old(self).wf(),
        ensures
            final(self).wf(),
            final(self)@ == old(self)@.after_cancel(handle@.key, handle@.version),
            !in_flight(old(self)@.flights, handle@.key, handle@.version) ==> (r matches Err(e)
                && e@ == EngineErrorView::NotInFlight),
            old(self)@.unshared(handle@.key, handle@.version) ==> r == Ok::<
                Option<EvaluationHandle>,
                EngineError,
            >(None),
            in_flight(old(self)@.flights, handle@.key, handle@.version) && !old(self)@.unshared(
                handle@.key,
                handle@.version,
            ) ==> r == Ok::<Option<EvaluationHandle>, EngineError>(Some(handle)),
    {
        let ghost before = self@;
        let key: KeyId = handle.key;
        let v: u64 = handle.version.0;
        proof {
            lemma_cancel_keeps_wf(before, key, v as nat);
        }
        match find_flight(&self.flights, key, v) {
            None => Err(EngineError::NotInFlight),
            Some(i) => {
                proof {
                    let c = flight_of(before.flights, key, v as nat);
                    assert(before.flights[c].key == key && before.flights[c].version == v);
                    assert(c == i);
                }
                if self.flights[i].waiters == 0 {
                    self.flights.remove(i);
                    Ok(None)
                } else {
                    Ok(Some(handle))
                }
            },
        }
    }

    /// Takes one caller off the evaluation of `key` at `version` that it shares and
    /// no longer waits for. Returns whether there was such a caller.
    pub fn withdraw(&mut self, key: KeyId, version: VersionNumber) -> (r: bool)
        requires
            old(self).wf(),
        ensures
            final(self).wf(),
            final(self)@ == old(self)@.after_withdraw(key, version@),
            r == (in_flight(old(self)@.flights, key, version@) && !old(self)@.unshared(
                key,
                version@,
            )),
    {
        let ghost before = self@;
        match find_flight(&self.flights, key, version.0) {
            None => false,
            Some(i) => {
                proof {
                    let c = flight_of(before.flights, key, version@);
                    assert(before.flights[c].key == key && before.flights[c].version == version@);
                    assert(c == i);
                }
                let f: Flight = self.flights[i];
                if f.waiters == 0 {
                    false
                } else {
                    self.flights.set(
                        i,
                        Flight { key: f.key, version: f.version, waiters: f.waiters - 1 },
                    );
                    proof {
                        let after = self@;
                        assert(after.nodes =~= before.nodes);
                        assert(after.flights =~= before.after_withdraw(key, version@).flights);
                        assert forall|g: int| 0 <= g < after.flights.len() implies (
                        #[trigger] after.flights[g]).key == before.flights[g].key
                            && after.flights[g].version == before.flights[g].version by {}
                    }
                    true
                }
            },
        }
    }

    /// Reclaims the records that nothing refers to any more: those that hold neither
    /// at the current version nor at a version in use, and are not the latest record
    /// of their key. What readers of the current version and of the versions in use
    /// see does not change.
    pub fn reclaim(&mut self)
        requires
            old(self).wf(),
        ensures
            final(self).wf(),
            final(self)@ == old(self)@.after_reclaim(),
    {
        let ghost before = self@;
        let n: usize = self.nodes.len();
        let mut k: usize = 0;
        while k < n
            invariant
                k <= n,
                n == self.nodes@.len(),
                n == before.nodes.len(),
                before.wf(),
                before == old(self)@,
                self.current == old(self).current,
                self.flights == old(self).flights,
                self.active == old(self).active,
                self.shut_down == old(self).shut_down,
                forall|j: int|
                    0 <= j < k ==> #[trigger] graph_view(self.nodes@)[j] == before.kept_from(
                        before.nodes[j],
                        0,
                    ),
                forall|j: int|
                    k <= j < n ==> #[trigger] graph_view(self.nodes@)[j] == before.nodes[j],
            decreases n - k,
        {
            let ghost outer = graph_view(self.nodes@);
            let ghost h = before.nodes[k as int];
            proof {
                assert(outer[k as int] == h);
                assert(h == history_view(self.nodes@[k as int]@));
                assert(history_wf(h));
            }
            let latest: Option<usize> = find_latest(&self.nodes[k]);
            let m: usize = self.nodes[k].len();
            let mut i: usize = m;
            proof {
                assert(h.take(m as int) =~= h);
                assert(before.kept_from(h, m as int) =~= Seq::<EntryView>::empty());
                assert(history_view(self.nodes@[k as int]@) =~= h.take(m as int) + before.kept_from(
                    h,
                    m as int,
                ));
            }
            while i > 0
                invariant
                    i <= m,
                    m == h.len(),
                    k < n,
                    n == self.nodes@.len(),
                    n == before.nodes.len(),
                    before.wf(),
                    before == old(self)@,
                    h == before.nodes[k as int],
                    history_wf(h),
                    self.current == old(self).current,
                    self.flights == old(self).flights,
                    self.active == old(self).active,
                    self.shut_down == old(self).shut_down,
                    forall|j: int| is_latest(h, j) <==> latest == Some(j as usize) && 0 <= j < m,
                    history_view(self.nodes@[k as int]@) == h.take(i as int) + before.kept_from(
                        h,
                        i as int,
                    ),
                    forall|j: int|
                        0 <= j < n && j != k ==> #[trigger] graph_view(self.nodes@)[j] == outer[j],
                decreases i,
            {
                let ghost mid = graph_view(self.nodes@);
                let ghost cur = history_view(self.nodes@[k as int]@);
                proof {
                    assert(h.take(i as int).len() == i);
                    assert(cur.len() >= i);
                }
                i = i - 1;
                proof {
                    assert(cur[i as int] == h.take(i as int + 1)[i as int]);
                    assert(cur[i as int] == h[i as int]);
                    assert(cur[i as int] == self.nodes@[k as int]@[i as int]@);
                }
                let since: u64 = self.nodes[k][i].since;
                let through: u64 = self.nodes[k][i].through;
                let is_last: bool = match latest {
                    Some(l) => l == i,
                    None => false,
                };
                let held: bool = any_between(&self.active, since, through);
                let keep: bool = is_last || (since <= self.current && self.current <= through)
                    || held;
                proof {
                    let e = h[i as int];
                    assert(is_last == is_latest(h, i as int));
                    assert(before.active == self.active@.to_multiset());
                    if held {
                        let x = choose|x: int|
                            0 <= x < self.active@.len() && since <= #[trigger] self.active@[x]
                                <= through;
                        let v = self.active@[x];
                        assert(self.active@.contains(v));
                        to_multiset_contains(self.active@, v);
                        assert(covers(e, v as nat));
                    }
                    if exists|v: u64| before.active.count(v) > 0 && #[trigger] covers(e, v as nat) {
                        let v = choose|v: u64|
                            before.active.count(v) > 0 && #[trigger] covers(e, v as nat);
                        to_multiset_contains(self.active@, v);
                        let x = choose|x: int| 0 <= x < self.active@.len() && self.active@[x] == v;
                        assert(since <= self.active@[x] <= through);
                    }
                    assert(keep == before.keeps(h, i as int));
                }
                if !keep {
                    self.nodes[k].remove(i);
                }
                proof {
                    let now = history_view(self.nodes@[k as int]@);
                    if keep {
                        assert(before.kept_from(h, i as int) =~= seq![h[i as int]]
                            + before.kept_from(h, i as int + 1));
                        assert(now =~= h.take(i as int) + before.kept_from(h, i as int));
                    } else {
                        assert(now =~= cur.remove(i as int));
                        assert(now =~= h.take(i as int) + before.kept_from(h, i as int));
                    }
                    assert forall|j: int| 0 <= j < n && j != k implies #[trigger] graph_view(
                        self.nodes@,
                    )[j] == outer[j] by {
                        assert(graph_view(self.nodes@)[j] == mid[j]);
                    }
                }
            }
            proof {
                let after = graph_view(self.nodes@);
                assert(h.take(0) =~= Seq::<EntryView>::empty());
                assert(after[k as int] =~= before.kept_from(h, 0));
                assert forall|j: int| 0 <= j < k implies #[trigger] after[j] == before.kept_from(
                    before.nodes[j],
                    0,
                ) by {
                    assert(after[j] == outer[j]);
                }
                assert forall|j: int| k < j < n implies #[trigger] after[j] == before.nodes[j] by {
                    assert(after[j] == outer[j]);
                }
            }
            k = k + 1;
        }
        proof {
            assert(self@.nodes =~= before.after_reclaim().nodes);
            lemma_reclaim_keeps_wf(before);
        }
    }

    /// Whether every key in `deps` has a place in the graph.
    pub fn knows_all(&self, deps: &Vec<KeyId>) -> (b: bool)
        ensures
            b == self@.knows_all(deps@),
    {
        let n: usize = deps.len();
        let mut d: usize = 0;
        while d < n
            invariant
                d <= n,
                n == deps@.len(),
                forall|x: int| 0 <= x < d ==> self@.knows(#[trigger] deps@[x]),
            decreases n - d,
        {
            if deps[d].index() >= self.nodes.len() {
                assert(!self@.knows(deps@[d as int]));
                return false;
            }
            d = d + 1;
        }
        true
    }

    /// Whether every key that the batch sets has a place in the graph.
    pub fn knows_changes(&self, changes: &Vec<InputChange>) -> (b: bool)
        ensures
            b == self@.knows_changes(batch_view(changes@)),
    {
        let ghost c = batch_view(changes@);
        let n: usize = changes.len();
        let mut i: usize = 0;
        while i < n
            invariant
                i <= n,
                n == changes@.len(),
                c == batch_view(changes@),
                forall|x: int| 0 <= x < i ==> self@.knows((#[trigger] c[x]).key),
            decreases n - i,
        {
            assert(c[i as int] == changes@[i as int]@);
            if changes[i].key.index() >= self.nodes.len() {
                assert(!self@.knows(c[i as int].key));
                return false;
            }
            i = i + 1;
        }
        true
    }

    /// Begins teardown: from now on commits and new evaluations are refused.
    pub fn shut_down(&mut self)
        requires
            old(self).wf(),
        ensures
            final(self).wf(),
            final(self)@ == (CoreView { shut_down: true, ..old(self)@ }),
    {
        self.shut_down = true;
    }
}

} // verus!
