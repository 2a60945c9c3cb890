//! The mathematical model of the core state: what the graph holds, what each
//! operation makes of it, and why the operations keep its invariant.

use vstd::prelude::*;
use vstd::multiset::Multiset;
use crate::key::KeyId;
use crate::node::{
    covered, covering, covers, has_predecessor, history_wf, is_predecessor, predecessor,
    EntryView, OutcomeView,
};

verus! {

/// An evaluation that is running: its key, the version it runs at, and the number
/// of callers that found it running and share its result.
#[derive(Clone, Copy, Debug, PartialEq, Eq, Structural)]
pub struct Flight {
    pub key: KeyId,
    pub version: u64,
    pub waiters: u64,
}

/// The mathematical content of a `NodeState`.
pub enum NodeStateView {
    Missing,
    InFlight,
    Done { value: Seq<u8>, deps: Seq<KeyId> },
    Failed(Seq<u8>),
    Cycle(Seq<KeyId>),
}

/// What a settled record says to a reader.
pub open spec fn settled_state(e: EntryView) -> NodeStateView {
    match e.outcome {
        OutcomeView::Value(b) => NodeStateView::Done { value: b, deps: e.deps },
        OutcomeView::Failed(b) => NodeStateView::Failed(b),
        OutcomeView::Cycle(c) => NodeStateView::Cycle(c),
    }
}

/// Whether an evaluation of `key` at version `v` is among `flights`.
pub open spec fn in_flight(flights: Seq<Flight>, key: KeyId, v: nat) -> bool {
    exists|i: int|
        0 <= i < flights.len() && (#[trigger] flights[i]).key == key && flights[i].version == v
}

/// The position among `flights` of the evaluation of `key` at version `v`.
pub open spec fn flight_of(flights: Seq<Flight>, key: KeyId, v: nat) -> int {
    choose|i: int|
        0 <= i < flights.len() && (#[trigger] flights[i]).key == key && flights[i].version == v
}

/// The mathematical content of an `EvaluationHandle`.
pub struct HandleView {
    pub key: KeyId,
    pub version: nat,
    pub recheck: Option<Seq<KeyId>>,
}

/// The mathematical content of a `Claim`.
pub enum ClaimView {
    Granted(HandleView),
    Shared,
    Settled(NodeStateView),
}

/// One more waiter, as far as the counter goes.
pub open spec fn one_more(n: u64) -> u64 {
    if n < u64::MAX {
        (n + 1) as u64
    } else {
        n
    }
}

/// The mathematical content of one staged input change: the key and its new value.
pub struct ChangeView {
    pub key: KeyId,
    pub value: Seq<u8>,
}

/// Whether the change at position `j` sets a key to another value than an earlier
/// change of the same batch did.
pub open spec fn conflicts_at(c: Seq<ChangeView>, j: int) -> bool {
    exists|i: int| 0 <= i < j && (#[trigger] c[i]).key == c[j].key && c[i].value != c[j].value
}

/// Whether the batch sets some key to two different values.
pub open spec fn has_conflict(c: Seq<ChangeView>) -> bool {
    exists|j: int| 0 <= j < c.len() && conflicts_at(c, j)
}

/// Whether `j` is the first position of the batch that conflicts with an earlier one.
pub open spec fn is_first_conflict(c: Seq<ChangeView>, j: int) -> bool {
    &&& 0 <= j < c.len()
    &&& conflicts_at(c, j)
    &&& forall|l: int| 0 <= l < j ==> !conflicts_at(c, l)
}

/// The first position of the batch that conflicts with an earlier one.
pub open spec fn first_conflict(c: Seq<ChangeView>) -> int {
    choose|j: int| is_first_conflict(c, j)
}

/// Whether the batch sets the key with identifier `k`.
pub open spec fn stages(c: Seq<ChangeView>, k: int) -> bool {
    exists|i: int| 0 <= i < c.len() && (#[trigger] c[i]).key@ == k
}

/// A position at which the batch sets the key with identifier `k`.
pub open spec fn staged_at(c: Seq<ChangeView>, k: int) -> int {
    choose|i: int| 0 <= i < c.len() && (#[trigger] c[i]).key@ == k
}

/// The value that the batch sets the key with identifier `k` to; the only one where
/// the batch has no conflict.
pub open spec fn staged_value(c: Seq<ChangeView>, k: int) -> Seq<u8> {
    c[staged_at(c, k)].value
}

/// A key that the batch does not set.
pub const UNTOUCHED: u8 = 0;

/// A key that the batch sets to the value it already has.
pub const CONFIRMED: u8 = 1;

/// A key that the batch sets to a new value.
pub const CHANGED: u8 = 2;

/// A key that the batch does not set, but whose record rests on a changed key.
pub const DIRTY: u8 = 3;

/// Whether a mark says that the key's value at the new version is not the old one.
pub open spec fn tainted(mark: u8) -> bool {
    mark == CHANGED || mark == DIRTY
}

/// Whether one of `deps` is marked as changed or dirty.
pub open spec fn rests_on_tainted(deps: Seq<KeyId>, marks: Seq<u8>) -> bool {
    exists|d: int| 0 <= d < deps.len() && tainted(marks[(#[trigger] deps[d])@ as int])
}

/// Whether position `i` holds the record of the history that reaches furthest.
pub open spec fn is_latest(h: Seq<EntryView>, i: int) -> bool {
    &&& 0 <= i < h.len()
    &&& forall|j: int| 0 <= j < h.len() ==> (#[trigger] h[j]).through <= h[i].through
}

/// The mathematical content of the core state.
pub struct CoreView {
    /// The version that new reads see.
    pub current: nat,
    /// The history of each key, at the position of its identifier.
    pub nodes: Seq<Seq<EntryView>>,
    /// The evaluations that are running, in the order in which they were claimed.
    pub flights: Seq<Flight>,
    /// The versions in use, each as often as it was marked and not yet released.
    pub active: Multiset<u64>,
    /// Whether teardown has begun.
    pub shut_down: bool,
}

impl CoreView {
    /// Whether `key` has a place in the graph.
    pub open spec fn knows(self, key: KeyId) -> bool {
        key@ < self.nodes.len()
    }

    /// Whether a record of `key` holds at version `v`.
    pub open spec fn settled(self, key: KeyId, v: nat) -> bool {
        self.knows(key) && covered(self.nodes[key@ as int], v)
    }

    /// What a reader sees for `key` at version `v`: the record that holds there, else
    /// the evaluation that is running, else nothing.
    pub open spec fn state_of(self, key: KeyId, v: nat) -> NodeStateView {
        if self.settled(key, v) {
            settled_state(self.nodes[key@ as int][covering(self.nodes[key@ as int], v)])
        } else if in_flight(self.flights, key, v) {
            NodeStateView::InFlight
        } else {
            NodeStateView::Missing
        }
    }

    /// The dependencies to recheck before `key` is computed anew at version `v`:
    /// those of its latest record that ended before `v`.
    pub open spec fn recheck_of(self, key: KeyId, v: nat) -> Option<Seq<KeyId>> {
        let h = self.nodes[key@ as int];
        if has_predecessor(h, v) {
            Some(h[predecessor(h, v)].deps)
        } else {
            None
        }
    }

    /// The answer to a request to evaluate `key` at version `v`.
    pub open spec fn claim_of(self, key: KeyId, v: nat) -> ClaimView {
        if self.settled(key, v) {
            ClaimView::Settled(self.state_of(key, v))
        } else if in_flight(self.flights, key, v) {
            ClaimView::Shared
        } else {
            ClaimView::Granted(HandleView { key, version: v, recheck: self.recheck_of(key, v) })
        }
    }

    /// The graph after a request to evaluate `key` at version `v`.
    pub open spec fn after_claim(self, key: KeyId, v: nat) -> CoreView {
        if self.settled(key, v) {
            self
        } else if in_flight(self.flights, key, v) {
            let i = flight_of(self.flights, key, v);
            CoreView {
                flights: self.flights.update(
                    i,
                    Flight { waiters: one_more(self.flights[i].waiters), ..self.flights[i] },
                ),
                ..self
            }
        } else {
            CoreView {
                flights: self.flights.push(Flight { key, version: v as u64, waiters: 0 }),
                ..self
            }
        }
    }

    /// Whether the new outcome of `key` at version `v` continues the key's latest
    /// earlier record: that record ended just before `v`, holds an equal outcome and
    /// read the same keys.
    pub open spec fn continues(
        self,
        key: KeyId,
        v: nat,
        outcome: OutcomeView,
        deps: Seq<KeyId>,
    ) -> bool {
        let h = self.nodes[key@ as int];
        &&& has_predecessor(h, v)
        &&& h[predecessor(h, v)].through + 1 == v
        &&& h[predecessor(h, v)].outcome == outcome
        &&& h[predecessor(h, v)].deps == deps
    }

    /// The history of `key` after an evaluation at version `v` ended in `outcome`,
    /// having read `deps`. Where a record came to hold at `v` while the evaluation
    /// ran, that record stands and the outcome is dropped. An outcome that continues
    /// the latest earlier record extends that record, so that dependents see no
    /// change; any other outcome becomes a record of its own. No record ever changes
    /// but in the version up to which it holds.
    pub open spec fn history_after_finish(
        self,
        key: KeyId,
        v: nat,
        outcome: OutcomeView,
        deps: Seq<KeyId>,
    ) -> Seq<EntryView> {
        let h = self.nodes[key@ as int];
        if covered(h, v) {
            h
        } else if self.continues(key, v, outcome, deps) {
            let p = predecessor(h, v);
            h.update(p, EntryView { through: v, ..h[p] })
        } else {
            h.push(EntryView { since: v, through: v, outcome, deps })
        }
    }

    /// The graph after the running evaluation of `key` at version `v` ended.
    pub open spec fn after_finish(
        self,
        key: KeyId,
        v: nat,
        outcome: OutcomeView,
        deps: Seq<KeyId>,
    ) -> CoreView {
        CoreView {
            nodes: self.nodes.update(
                key@ as int,
                self.history_after_finish(key, v, outcome, deps),
            ),
            flights: self.flights.remove(flight_of(self.flights, key, v)),
            ..self
        }
    }

    /// Whether every key in `deps` has a place in the graph.
    pub open spec fn knows_all(self, deps: Seq<KeyId>) -> bool {
        forall|d: int| 0 <= d < deps.len() ==> self.knows(#[trigger] deps[d])
    }

    /// Whether `dep` had one and the same record at version `t` and at version `v`.
    pub open spec fn unchanged_between(self, dep: KeyId, t: nat, v: nat) -> bool {
        &&& self.settled(dep, v)
        &&& self.nodes[dep@ as int][covering(self.nodes[dep@ as int], v)].since <= t
    }

    /// Whether the latest record of `key` that ended before `v` still holds at `v`:
    /// each of its dependencies is settled at `v` by a record that already held when
    /// that record of `key` last did.
    pub open spec fn still_valid(self, key: KeyId, v: nat) -> bool {
        let h = self.nodes[key@ as int];
        &&& !covered(h, v)
        &&& has_predecessor(h, v)
        &&& forall|d: int|
            0 <= d < h[predecessor(h, v)].deps.len() ==> self.unchanged_between(
                #[trigger] h[predecessor(h, v)].deps[d],
                h[predecessor(h, v)].through,
                v,
            )
    }

    /// The graph after the latest earlier record of `key` was found to hold at `v`
    /// too: the record now reaches up to `v`, and the evaluation has ended.
    pub open spec fn after_revalidate(self, key: KeyId, v: nat) -> CoreView {
        let h = self.nodes[key@ as int];
        let p = predecessor(h, v);
        CoreView {
            nodes: self.nodes.update(key@ as int, h.update(p, EntryView { through: v, ..h[p] })),
            flights: self.flights.remove(flight_of(self.flights, key, v)),
            ..self
        }
    }

    /// Whether a record of the key with identifier `k` holds at the current version.
    pub open spec fn has_current(self, k: int) -> bool {
        0 <= k < self.nodes.len() && covered(self.nodes[k], self.current)
    }

    /// The record of the key with identifier `k` that holds at the current version.
    pub open spec fn current_record(self, k: int) -> EntryView {
        self.nodes[k][covering(self.nodes[k], self.current)]
    }

    /// What the batch `c` does to the key with identifier `k`: nothing, set it to the
    /// value that it has as an input already, or set it to a new value.
    pub open spec fn stage_mark(self, c: Seq<ChangeView>, k: int) -> u8 {
        if !stages(c, k) {
            UNTOUCHED
        } else if self.has_current(k) && self.current_record(k).outcome == OutcomeView::Value(
            staged_value(c, k),
        ) && self.current_record(k).deps.len() == 0 {
            CONFIRMED
        } else {
            CHANGED
        }
    }

    /// The marks of all keys under the batch `c`, before dirtiness spreads.
    pub open spec fn stage_marks(self, c: Seq<ChangeView>) -> Seq<u8> {
        Seq::new(self.nodes.len(), |k: int| self.stage_mark(c, k))
    }

    /// Whether the key with identifier `k` is untouched and its current record names
    /// the key with identifier `d` as a dependency.
    pub open spec fn rests_on(self, marks: Seq<u8>, k: int, d: int) -> bool {
        &&& 0 <= k < marks.len()
        &&& marks[k] == UNTOUCHED
        &&& self.has_current(k)
        &&& exists|j: int|
            0 <= j < self.current_record(k).deps.len() && (#[trigger] self.current_record(
                k,
            ).deps[j])@ == d
    }

    /// Whether `path` is a chain of dependency edges between untouched keys that ends
    /// in a changed key.
    pub open spec fn leads_to_change(self, marks: Seq<u8>, path: Seq<int>) -> bool {
        &&& path.len() > 0
        &&& 0 <= path.last() < marks.len()
        &&& marks[path.last()] == CHANGED
        &&& forall|i: int|
            0 <= i < path.len() - 1 ==> self.rests_on(marks, #[trigger] path[i], path[i + 1])
    }

    /// Whether the key with identifier `k` is untouched by the batch, but its current
    /// record depends, directly or through other untouched keys, on a key that the
    /// batch changes.
    pub open spec fn affected(self, marks: Seq<u8>, k: int) -> bool {
        &&& 0 <= k < marks.len()
        &&& marks[k] == UNTOUCHED
        &&& exists|path: Seq<int>| path[0] == k && #[trigger] self.leads_to_change(marks, path)
    }

    /// The marks of all keys once dirtiness has spread from the changed keys.
    pub open spec fn spread(self, marks: Seq<u8>) -> Seq<u8> {
        Seq::new(
            marks.len(),
            |k: int|
                if self.affected(marks, k) {
                    DIRTY
                } else {
                    marks[k]
                },
        )
    }

    /// The history of the key with identifier `k` after the batch `c` was committed
    /// as version `current + 1`. A key set to a new value gets a record of that value
    /// for the new version. A key set to the value it has, and an untouched key whose
    /// record rests on no changed key, keep their record, which now reaches the new
    /// version. An affected key is dirty: no record of it holds at the new version.
    pub open spec fn history_after_commit(self, c: Seq<ChangeView>, k: int) -> Seq<EntryView> {
        let h = self.nodes[k];
        let next = self.current + 1;
        let mark = self.spread(self.stage_marks(c))[k];
        if mark == CHANGED {
            h.push(
                EntryView {
                    since: next,
                    through: next,
                    outcome: OutcomeView::Value(staged_value(c, k)),
                    deps: Seq::empty(),
                },
            )
        } else if (mark == CONFIRMED || mark == UNTOUCHED) && self.has_current(k) {
            let i = covering(h, self.current);
            h.update(i, EntryView { through: next, ..h[i] })
        } else {
            h
        }
    }

    /// The graph after the batch `c` was committed.
    pub open spec fn after_commit(self, c: Seq<ChangeView>) -> CoreView {
        CoreView {
            current: self.current + 1,
            nodes: Seq::new(self.nodes.len(), |k: int| self.history_after_commit(c, k)),
            ..self
        }
    }

    /// Whether every key that the batch sets has a place in the graph.
    pub open spec fn knows_changes(self, c: Seq<ChangeView>) -> bool {
        forall|i: int| 0 <= i < c.len() ==> self.knows((#[trigger] c[i]).key)
    }

    /// Whether `marks` arose from `base` by marking only affected keys as dirty.
    pub open spec fn partly_spread(self, base: Seq<u8>, marks: Seq<u8>) -> bool {
        &&& marks.len() == base.len()
        &&& forall|k: int|
            0 <= k < base.len() ==> (#[trigger] marks[k]) == base[k] || (marks[k] == DIRTY
                && self.affected(base, k))
    }

    /// Whether nothing is left to mark at the key with identifier `k`: it is marked
    /// already, or its current record rests on no changed or dirty key.
    pub open spec fn closed_at(self, marks: Seq<u8>, k: int) -> bool {
        marks[k] == UNTOUCHED && self.has_current(k) ==> !rests_on_tainted(
            self.current_record(k).deps,
            marks,
        )
    }

    /// A graph without keys, at version 0, with nothing running and no version in use.
    pub open spec fn initial() -> CoreView {
        CoreView {
            current: 0,
            nodes: Seq::empty(),
            flights: Seq::empty(),
            active: Multiset::empty(),
            shut_down: false,
        }
    }

    /// The graph with places for `n` keys: the histories it has, and empty ones for
    /// the keys that are new.
    pub open spec fn with_keys(self, n: nat) -> CoreView {
        CoreView {
            nodes: Seq::new(
                if n >= self.nodes.len() {
                    n
                } else {
                    self.nodes.len()
                },
                |k: int|
                    if k < self.nodes.len() {
                        self.nodes[k]
                    } else {
                        Seq::empty()
                    },
            ),
            ..self
        }
    }

    /// Whether the running evaluation of `key` at version `v` is wanted by nobody but
    /// the caller that runs it.
    pub open spec fn unshared(self, key: KeyId, v: nat) -> bool {
        in_flight(self.flights, key, v) && self.flights[flight_of(self.flights, key, v)].waiters
            == 0
    }

    /// The graph after the caller that runs the evaluation of `key` at version `v`
    /// gave it up: an evaluation that nobody else waits for is gone, one that others
    /// share goes on.
    pub open spec fn after_cancel(self, key: KeyId, v: nat) -> CoreView {
        if self.unshared(key, v) {
            CoreView { flights: self.flights.remove(flight_of(self.flights, key, v)), ..self }
        } else {
            self
        }
    }

    /// The graph after one of the callers that share the evaluation of `key` at
    /// version `v` stopped waiting for it.
    pub open spec fn after_withdraw(self, key: KeyId, v: nat) -> CoreView {
        if in_flight(self.flights, key, v) && !self.unshared(key, v) {
            let i = flight_of(self.flights, key, v);
            CoreView {
                flights: self.flights.update(
                    i,
                    Flight { waiters: (self.flights[i].waiters - 1) as u64, ..self.flights[i] },
                ),
                ..self
            }
        } else {
            self
        }
    }

    /// Whether the record holds at the current version or at a version in use.
    pub open spec fn in_use(self, e: EntryView) -> bool {
        covers(e, self.current) || exists|v: u64|
            self.active.count(v) > 0 && #[trigger] covers(e, v as nat)
    }

    /// Whether reclamation keeps the record at position `i` of the history `h`: a
    /// record that is in use stays, and so does the latest record of every key,
    /// which early cutoff starts from.
    pub open spec fn keeps(self, h: Seq<EntryView>, i: int) -> bool {
        self.in_use(h[i]) || is_latest(h, i)
    }

    /// The records of `h` from position `i` on that reclamation keeps, in order.
    pub open spec fn kept_from(self, h: Seq<EntryView>, i: int) -> Seq<EntryView>
        decreases h.len() - i,
    {
        if i < 0 || i >= h.len() {
            Seq::empty()
        } else if self.keeps(h, i) {
            seq![h[i]] + self.kept_from(h, i + 1)
        } else {
            self.kept_from(h, i + 1)
        }
    }

    /// The graph after reclamation: every history holds just the records that are
    /// kept.
    pub open spec fn after_reclaim(self) -> CoreView {
        CoreView {
            nodes: Seq::new(self.nodes.len(), |k: int| self.kept_from(self.nodes[k], 0)),
            ..self
        }
    }

    /// The invariant of the graph.
    pub open spec fn wf(self) -> bool {
        // every history is well formed and ends at the current version or before
        &&& forall|k: int| 0 <= k < self.nodes.len() ==> history_wf(#[trigger] self.nodes[k])
        &&& forall|k: int, i: int|
            0 <= k < self.nodes.len() && 0 <= i < self.nodes[k].len() ==> (
            #[trigger] self.nodes[k][i]).through <= self.current
        // every recorded dependency is a key of the graph
        &&& forall|k: int, i: int, d: int|
            0 <= k < self.nodes.len() && 0 <= i < self.nodes[k].len() && 0 <= d
                < self.nodes[k][i].deps.len() ==> (#[trigger] self.nodes[k][i].deps[d])@
                < self.nodes.len()
        // a running evaluation is of a known key, at an installed version
        &&& forall|f: int|
            0 <= f < self.flights.len() ==> {
                &&& self.knows((#[trigger] self.flights[f]).key)
                &&& self.flights[f].version <= self.current
            }
        // no evaluation runs twice
        &&& forall|f: int, g: int|
            0 <= f < self.flights.len() && 0 <= g < self.flights.len() && (
            #[trigger] self.flights[f]).key == (#[trigger] self.flights[g]).key
                && self.flights[f].version == self.flights[g].version ==> f == g
    }
}

/// Extending the latest record that ended before `v` up to `v` keeps a history well
/// formed, where no record holds at `v` yet.
pub proof fn lemma_extend_history(h: Seq<EntryView>, v: nat)
    requires
        history_wf(h),
        !covered(h, v),
        has_predecessor(h, v),
    ensures
        is_predecessor(h, predecessor(h, v), v),
        history_wf(h.update(predecessor(h, v), EntryView { through: v, ..h[predecessor(h, v)] })),
        covered(h.update(predecessor(h, v), EntryView { through: v, ..h[predecessor(h, v)] }), v),
{
    lemma_predecessor_exists(h, v);
    let p = predecessor(h, v);
    let h2 = h.update(p, EntryView { through: v, ..h[p] });
    assert(forall|i: int| 0 <= i < h.len() ==> !covers(#[trigger] h[i], v));
    assert(covers(h2[p], v));
    assert forall|i: int, j: int| 0 <= i < h2.len() && 0 <= j < h2.len() && i != j implies (
    #[trigger] h2[i]).through < (#[trigger] h2[j]).since || h2[j].through < h2[i].since by {
        assert(!covers(h[i], v));
        assert(!covers(h[j], v));
        assert(h[i].since <= h[i].through);
        assert(h[j].since <= h[j].through);
        assert(h[i].through < h[j].since || h[j].through < h[i].since);
        if i == p {
            assert(h[j].through < v ==> h[j].through <= h[p].through);
        } else if j == p {
            assert(h[i].through < v ==> h[i].through <= h[p].through);
        }
    }
    assert forall|i: int| 0 <= i < h2.len() implies (#[trigger] h2[i]).since <= h2[i].through by {
        assert(h[i].since <= h[i].through);
    }
}

/// A new record for the single version `v` keeps a history well formed, where no
/// record holds at `v` yet.
pub proof fn lemma_append_history(h: Seq<EntryView>, e: EntryView)
    requires
        history_wf(h),
        e.since == e.through,
        !covered(h, e.since),
    ensures
        history_wf(h.push(e)),
        covered(h.push(e), e.since),
{
    let v = e.since;
    let h2 = h.push(e);
    assert(forall|i: int| 0 <= i < h.len() ==> !covers(#[trigger] h[i], v));
    assert(covers(h2[h.len() as int], v));
    assert forall|i: int, j: int| 0 <= i < h2.len() && 0 <= j < h2.len() && i != j implies (
    #[trigger] h2[i]).through < (#[trigger] h2[j]).since || h2[j].through < h2[i].since by {
        if i < h.len() && j < h.len() {
            assert(h[i].through < h[j].since || h[j].through < h[i].since);
        } else if i < h.len() {
            assert(!covers(h[i], v));
        } else {
            assert(!covers(h[j], v));
        }
    }
    assert forall|i: int| 0 <= i < h2.len() implies (#[trigger] h2[i]).since <= h2[i].through by {
        if i < h.len() {
            assert(h[i].since <= h[i].through);
        }
    }
}

/// Whether every record of `h` ends at version `current` or before and names only
/// dependencies below `keys`.
pub open spec fn history_fits(h: Seq<EntryView>, current: nat, keys: nat) -> bool {
    &&& forall|i: int| 0 <= i < h.len() ==> (#[trigger] h[i]).through <= current
    &&& forall|i: int, d: int|
        0 <= i < h.len() && 0 <= d < h[i].deps.len() ==> (#[trigger] h[i].deps[d])@ < keys
}

/// Replacing one history by a well-formed one that fits, and ending one running
/// evaluation, keeps the invariant of the graph.
pub proof fn lemma_settle_keeps_wf(s: CoreView, k: int, h2: Seq<EntryView>, fi: int)
    requires
        s.wf(),
        0 <= k < s.nodes.len(),
        0 <= fi < s.flights.len(),
        history_wf(h2),
        history_fits(h2, s.current, s.nodes.len()),
    ensures
        (CoreView { nodes: s.nodes.update(k, h2), flights: s.flights.remove(fi), ..s }).wf(),
{
    let t = CoreView { nodes: s.nodes.update(k, h2), flights: s.flights.remove(fi), ..s };
    assert forall|n: int| 0 <= n < t.nodes.len() implies history_wf(#[trigger] t.nodes[n]) by {
        if n != k {
            assert(t.nodes[n] == s.nodes[n]);
        }
    }
    assert forall|n: int, i: int| 0 <= n < t.nodes.len() && 0 <= i < t.nodes[n].len() implies (
    #[trigger] t.nodes[n][i]).through <= t.current by {
        if n != k {
            assert(t.nodes[n][i] == s.nodes[n][i]);
        } else {
            assert(h2[i].through <= s.current);
        }
    }
    assert forall|n: int, i: int, d: int|
        0 <= n < t.nodes.len() && 0 <= i < t.nodes[n].len() && 0 <= d
            < t.nodes[n][i].deps.len() implies (#[trigger] t.nodes[n][i].deps[d])@
        < t.nodes.len() by {
        if n != k {
            assert(t.nodes[n][i] == s.nodes[n][i]);
            assert(s.nodes[n][i].deps[d]@ < s.nodes.len());
        } else {
            assert(h2[i].deps[d]@ < s.nodes.len());
        }
    }
    assert forall|f: int| 0 <= f < t.flights.len() implies {
        &&& t.knows((#[trigger] t.flights[f]).key)
        &&& t.flights[f].version <= t.current
    } by {
        let g = if f < fi { f } else { f + 1 };
        assert(t.flights[f] == s.flights[g]);
        assert(s.knows(s.flights[g].key));
    }
    assert forall|f: int, g: int|
        0 <= f < t.flights.len() && 0 <= g < t.flights.len() && (#[trigger] t.flights[f]).key == (
        #[trigger] t.flights[g]).key && t.flights[f].version == t.flights[g].version implies f
        == g by {
        let f0 = if f < fi { f } else { f + 1 };
        let g0 = if g < fi { g } else { g + 1 };
        assert(t.flights[f] == s.flights[f0]);
        assert(t.flights[g] == s.flights[g0]);
    }
}

/// Ending a running evaluation keeps the invariant of the graph, and afterwards a
/// record of the key holds at the version.
pub proof fn lemma_finish_keeps_wf(
    s: CoreView,
    key: KeyId,
    v: nat,
    outcome: OutcomeView,
    deps: Seq<KeyId>,
)
    requires
        s.wf(),
        in_flight(s.flights, key, v),
        s.knows_all(deps),
    ensures
        s.after_finish(key, v, outcome, deps).wf(),
        s.after_finish(key, v, outcome, deps).settled(key, v),
{
    let fi = flight_of(s.flights, key, v);
    let k = key@ as int;
    let h = s.nodes[k];
    let h2 = s.history_after_finish(key, v, outcome, deps);
    assert(s.knows(s.flights[fi].key));
    assert(s.flights[fi].version <= s.current);
    assert(history_wf(h));
    assert forall|i: int| 0 <= i < h.len() implies (#[trigger] h[i]).through <= s.current by {
        assert(s.nodes[k][i].through <= s.current);
    }
    assert forall|i: int, d: int| 0 <= i < h.len() && 0 <= d < h[i].deps.len() implies (
    #[trigger] h[i].deps[d])@ < s.nodes.len() by {
        assert(s.nodes[k][i].deps[d]@ < s.nodes.len());
    }
    assert forall|d: int| 0 <= d < deps.len() implies (#[trigger] deps[d])@ < s.nodes.len() by {
        assert(s.knows(deps[d]));
    }
    if covered(h, v) {
    } else if s.continues(key, v, outcome, deps) {
        lemma_extend_history(h, v);
    } else {
        lemma_append_history(h, EntryView { since: v, through: v, outcome, deps });
    }
    assert(history_fits(h2, s.current, s.nodes.len()));
    lemma_settle_keeps_wf(s, k, h2, fi);
}

/// Where some record ended before `v`, the latest such record exists.
pub proof fn lemma_predecessor_exists(h: Seq<EntryView>, v: nat)
    requires
        has_predecessor(h, v),
    ensures
        is_predecessor(h, predecessor(h, v), v),
{
    let i = lemma_latest_before(h, v, h.len() as int);
    assert(is_predecessor(h, i, v));
}

/// Among the first `n` records, the position of the latest that ended before `v`.
proof fn lemma_latest_before(h: Seq<EntryView>, v: nat, n: int) -> (b: int)
    requires
        0 <= n <= h.len(),
        exists|i: int| 0 <= i < n && (#[trigger] h[i]).through < v,
    ensures
        0 <= b < n,
        h[b].through < v,
        forall|j: int| 0 <= j < n && (#[trigger] h[j]).through < v ==> h[j].through <= h[b].through,
    decreases n,
{
    let last = n - 1;
    if exists|i: int| 0 <= i < last && (#[trigger] h[i]).through < v {
        let b0 = lemma_latest_before(h, v, last);
        if h[last].through < v && h[last].through > h[b0].through {
            last
        } else {
            b0
        }
    } else {
        assert(h[last].through < v);
        last
    }
}

/// Extending a record that still holds keeps the invariant of the graph, and
/// afterwards the key is settled at the version with the outcome it had before.
pub proof fn lemma_revalidate_keeps_wf(s: CoreView, key: KeyId, v: nat)
    requires
        s.wf(),
        in_flight(s.flights, key, v),
        s.still_valid(key, v),
    ensures
        s.after_revalidate(key, v).wf(),
        s.after_revalidate(key, v).settled(key, v),
{
    let fi = flight_of(s.flights, key, v);
    let k = key@ as int;
    let h = s.nodes[k];
    let p = predecessor(h, v);
    assert(s.knows(s.flights[fi].key));
    assert(s.flights[fi].version <= s.current);
    assert(history_wf(h));
    lemma_extend_history(h, v);
    let h2 = h.update(p, EntryView { through: v, ..h[p] });
    assert forall|i: int| 0 <= i < h2.len() implies (#[trigger] h2[i]).through <= s.current by {
        assert(s.nodes[k][i].through <= s.current);
    }
    assert forall|i: int, d: int| 0 <= i < h2.len() && 0 <= d < h2[i].deps.len() implies (
    #[trigger] h2[i].deps[d])@ < s.nodes.len() by {
        assert(s.nodes[k][i].deps[d]@ < s.nodes.len());
    }
    lemma_settle_keeps_wf(s, k, h2, fi);
}

/// A key whose current record rests on a changed or dirty key is affected.
pub proof fn lemma_mark_sound(s: CoreView, base: Seq<u8>, marks: Seq<u8>, k: int)
    requires
        s.wf(),
        base.len() == s.nodes.len(),
        forall|j: int| 0 <= j < base.len() ==> #[trigger] base[j] != DIRTY,
        s.partly_spread(base, marks),
        0 <= k < base.len(),
        base[k] == UNTOUCHED,
        s.has_current(k),
        rests_on_tainted(s.current_record(k).deps, marks),
    ensures
        s.affected(base, k),
{
    let deps = s.current_record(k).deps;
    let d = choose|d: int| 0 <= d < deps.len() && tainted(marks[(#[trigger] deps[d])@ as int]);
    let c = covering(s.nodes[k], s.current);
    assert(s.nodes[k][c].deps[d]@ < s.nodes.len());
    let dk = deps[d]@ as int;
    assert(marks[dk] == base[dk] || (marks[dk] == DIRTY && s.affected(base, dk)));
    assert(s.rests_on(base, k, dk));
    let tail = if marks[dk] == base[dk] {
        seq![dk]
    } else {
        choose|path: Seq<int>| path[0] == dk && #[trigger] s.leads_to_change(base, path)
    };
    assert(tail[0] == dk && s.leads_to_change(base, tail));
    let path = seq![k] + tail;
    assert(path.last() == tail.last());
    assert forall|i: int| 0 <= i < path.len() - 1 implies s.rests_on(
        base,
        #[trigger] path[i],
        path[i + 1],
    ) by {
        if i > 0 {
            assert(path[i] == tail[i - 1]);
            assert(path[i + 1] == tail[i - 1 + 1]);
            assert(s.rests_on(base, tail[i - 1], tail[i - 1 + 1]));
        }
    }
    assert(path[0] == k && s.leads_to_change(base, path));
}

/// Once nothing is left to mark, every key from which a chain leads to a changed
/// key is marked.
pub proof fn lemma_reach_marked(s: CoreView, base: Seq<u8>, marks: Seq<u8>, path: Seq<int>)
    requires
        s.wf(),
        base.len() == s.nodes.len(),
        forall|j: int| 0 <= j < base.len() ==> #[trigger] base[j] != DIRTY,
        s.partly_spread(base, marks),
        forall|j: int| 0 <= j < base.len() ==> s.closed_at(marks, j),
        s.leads_to_change(base, path),
    ensures
        0 <= path[0] < base.len(),
        tainted(marks[path[0]]),
    decreases path.len(),
{
    let k = path[0];
    if path.len() == 1 {
        assert(path.last() == k);
        assert(marks[k] == base[k] || (marks[k] == DIRTY && s.affected(base, k)));
    } else {
        let tail = path.drop_first();
        assert(tail.last() == path.last());
        assert forall|i: int| 0 <= i < tail.len() - 1 implies s.rests_on(
            base,
            #[trigger] tail[i],
            tail[i + 1],
        ) by {
            assert(tail[i] == path[i + 1]);
            assert(s.rests_on(base, path[i + 1], path[i + 1 + 1]));
        }
        lemma_reach_marked(s, base, marks, tail);
        assert(s.rests_on(base, path[0int], path[0int + 1]));
        assert(tail[0] == path[1]);
        let deps = s.current_record(k).deps;
        let j = choose|j: int| 0 <= j < deps.len() && (#[trigger] deps[j])@ == path[1];
        assert(tainted(marks[deps[j]@ as int]));
        assert(rests_on_tainted(deps, marks));
        assert(s.closed_at(marks, k));
        assert(marks[k] == base[k] || (marks[k] == DIRTY && s.affected(base, k)));
    }
}

/// Once nothing is left to mark, the marks are exactly those of the spread.
pub proof fn lemma_closed_is_spread(s: CoreView, base: Seq<u8>, marks: Seq<u8>)
    requires
        s.wf(),
        base.len() == s.nodes.len(),
        forall|j: int| 0 <= j < base.len() ==> #[trigger] base[j] != DIRTY,
        s.partly_spread(base, marks),
        forall|j: int| 0 <= j < base.len() ==> s.closed_at(marks, j),
    ensures
        marks == s.spread(base),
{
    let goal = s.spread(base);
    assert forall|k: int| 0 <= k < base.len() implies marks[k] == goal[k] by {
        assert(marks[k] == base[k] || (marks[k] == DIRTY && s.affected(base, k)));
        if s.affected(base, k) {
            let path = choose|path: Seq<int>|
                path[0] == k && #[trigger] s.leads_to_change(base, path);
            lemma_reach_marked(s, base, marks, path);
        }
    }
    assert(marks =~= goal);
}

/// The number of untouched keys among the first `n` marks.
pub open spec fn untouched_upto(marks: Seq<u8>, n: int) -> int
    decreases n,
{
    if n <= 0 {
        0
    } else {
        untouched_upto(marks, n - 1) + if marks[n - 1] == UNTOUCHED {
            1int
        } else {
            0int
        }
    }
}

/// A count is never negative.
pub proof fn lemma_untouched_nonneg(marks: Seq<u8>, n: int)
    ensures
        untouched_upto(marks, n) >= 0,
    decreases n,
{
    if n > 0 {
        lemma_untouched_nonneg(marks, n - 1);
    }
}

/// Marking one untouched key leaves one untouched key fewer.
pub proof fn lemma_untouched_update(marks: Seq<u8>, i: int, m: u8, n: int)
    requires
        0 <= i < marks.len(),
        0 <= n <= marks.len(),
        marks[i] == UNTOUCHED,
        m != UNTOUCHED,
    ensures
        untouched_upto(marks.update(i, m), n) == untouched_upto(marks, n) - if i < n {
            1int
        } else {
            0int
        },
        untouched_upto(marks, n) >= if i < n {
            1int
        } else {
            0int
        },
    decreases n,
{
    if n > 0 {
        lemma_untouched_update(marks, i, m, n - 1);
    }
}

/// Committing a batch keeps the invariant of the graph.
pub proof fn lemma_commit_keeps_wf(s: CoreView, c: Seq<ChangeView>)
    requires
        s.wf(),
    ensures
        s.after_commit(c).wf(),
{
    let t = s.after_commit(c);
    let next = s.current + 1;
    assert forall|k: int| 0 <= k < t.nodes.len() implies history_wf(#[trigger] t.nodes[k])
        && history_fits(t.nodes[k], t.current, t.nodes.len()) by {
        let h = s.nodes[k];
        let h2 = t.nodes[k];
        assert(history_wf(h));
        assert forall|i: int| 0 <= i < h.len() implies (#[trigger] h[i]).through <= s.current by {
            assert(s.nodes[k][i].through <= s.current);
        }
        assert forall|i: int, d: int| 0 <= i < h.len() && 0 <= d < h[i].deps.len() implies (
        #[trigger] h[i].deps[d])@ < s.nodes.len() by {
            assert(s.nodes[k][i].deps[d]@ < s.nodes.len());
        }
        let mark = s.spread(s.stage_marks(c))[k];
        if mark == CHANGED {
            assert forall|i: int, j: int|
                0 <= i < h2.len() && 0 <= j < h2.len() && i != j implies (#[trigger] h2[i]).through
                < (#[trigger] h2[j]).since || h2[j].through < h2[i].since by {
                if i < h.len() && j < h.len() {
                    assert(h[i].through < h[j].since || h[j].through < h[i].since);
                }
            }
            assert forall|i: int| 0 <= i < h2.len() implies (#[trigger] h2[i]).since
                <= h2[i].through by {
                if i < h.len() {
                    assert(h[i].since <= h[i].through);
                }
            }
        } else if (mark == CONFIRMED || mark == UNTOUCHED) && s.has_current(k) {
            let x = covering(h, s.current);
            assert(covers(h[x], s.current));
            assert forall|i: int, j: int|
                0 <= i < h2.len() && 0 <= j < h2.len() && i != j implies (#[trigger] h2[i]).through
                < (#[trigger] h2[j]).since || h2[j].through < h2[i].since by {
                assert(h[i].through < h[j].since || h[j].through < h[i].since);
                assert(h[i].since <= h[i].through);
                assert(h[j].since <= h[j].through);
            }
            assert forall|i: int| 0 <= i < h2.len() implies (#[trigger] h2[i]).since
                <= h2[i].through by {
                assert(h[i].since <= h[i].through);
            }
        } else {
            if mark == CONFIRMED {
                assert(s.stage_marks(c)[k] == CONFIRMED);
            }
            assert(h2 == h);
        }
    }
    assert forall|k: int, i: int| 0 <= k < t.nodes.len() && 0 <= i < t.nodes[k].len() implies (
    #[trigger] t.nodes[k][i]).through <= t.current by {
        assert(history_fits(t.nodes[k], t.current, t.nodes.len()));
    }
    assert forall|k: int, i: int, d: int|
        0 <= k < t.nodes.len() && 0 <= i < t.nodes[k].len() && 0 <= d
            < t.nodes[k][i].deps.len() implies (#[trigger] t.nodes[k][i].deps[d])@
        < t.nodes.len() by {
        assert(history_fits(t.nodes[k], t.current, t.nodes.len()));
    }
    assert forall|f: int| 0 <= f < t.flights.len() implies {
        &&& t.knows((#[trigger] t.flights[f]).key)
        &&& t.flights[f].version <= t.current
    } by {
        assert(s.knows(s.flights[f].key));
    }
}

/// Ending one running evaluation, with the histories as they are, keeps the
/// invariant of the graph.
pub proof fn lemma_cancel_keeps_wf(s: CoreView, key: KeyId, v: nat)
    requires
        s.wf(),
    ensures
        s.after_cancel(key, v).wf(),
{
    if s.unshared(key, v) {
        let fi = flight_of(s.flights, key, v);
        let k = s.flights[fi].key@ as int;
        assert(s.knows(s.flights[fi].key));
        let h = s.nodes[k];
        assert(history_wf(h));
        assert forall|i: int| 0 <= i < h.len() implies (#[trigger] h[i]).through <= s.current by {
            assert(s.nodes[k][i].through <= s.current);
        }
        assert forall|i: int, d: int| 0 <= i < h.len() && 0 <= d < h[i].deps.len() implies (
        #[trigger] h[i].deps[d])@ < s.nodes.len() by {
            assert(s.nodes[k][i].deps[d]@ < s.nodes.len());
        }
        lemma_settle_keeps_wf(s, k, h, fi);
        assert(s.nodes.update(k, h) =~= s.nodes);
    }
}

impl CoreView {
    /// The position in `h` of the record that stands at position `x` of what
    /// reclamation keeps of `h` from position `i` on.
    pub open spec fn origin(self, h: Seq<EntryView>, i: int, x: int) -> int
        decreases h.len() - i,
    {
        if i < 0 || i >= h.len() {
            i
        } else if self.keeps(h, i) {
            if x <= 0 {
                i
            } else {
                self.origin(h, i + 1, x - 1)
            }
        } else {
            self.origin(h, i + 1, x)
        }
    }

    /// The number of records of `h` from position `i` up to position `j` that
    /// reclamation keeps.
    pub open spec fn rank(self, h: Seq<EntryView>, i: int, j: int) -> int
        decreases j - i,
    {
        if i >= j {
            0
        } else if self.keeps(h, i) {
            1 + self.rank(h, i + 1, j)
        } else {
            self.rank(h, i + 1, j)
        }
    }
}

/// Every record that reclamation keeps is a record of the old history that was to
/// be kept.
pub proof fn lemma_kept_origin(s: CoreView, h: Seq<EntryView>, i: int, x: int)
    requires
        0 <= i <= h.len(),
        0 <= x < s.kept_from(h, i).len(),
    ensures
        i <= s.origin(h, i, x) < h.len(),
        s.keeps(h, s.origin(h, i, x)),
        h[s.origin(h, i, x)] == s.kept_from(h, i)[x],
    decreases h.len() - i,
{
    if i < h.len() {
        if s.keeps(h, i) {
            assert(s.kept_from(h, i) =~= seq![h[i]] + s.kept_from(h, i + 1));
            if x > 0 {
                lemma_kept_origin(s, h, i + 1, x - 1);
            }
        } else {
            lemma_kept_origin(s, h, i + 1, x);
        }
    }
}

/// Reclamation keeps the order of the records.
pub proof fn lemma_kept_order(s: CoreView, h: Seq<EntryView>, i: int, x: int, y: int)
    requires
        0 <= i <= h.len(),
        0 <= x < y < s.kept_from(h, i).len(),
    ensures
        s.origin(h, i, x) < s.origin(h, i, y),
    decreases h.len() - i,
{
    if i < h.len() {
        if s.keeps(h, i) {
            assert(s.kept_from(h, i) =~= seq![h[i]] + s.kept_from(h, i + 1));
            if x > 0 {
                lemma_kept_order(s, h, i + 1, x - 1, y - 1);
            } else {
                lemma_kept_origin(s, h, i + 1, y - 1);
            }
        } else {
            lemma_kept_order(s, h, i + 1, x, y);
        }
    }
}

/// Every record that is to be kept is among the records that reclamation keeps.
pub proof fn lemma_kept_rank(s: CoreView, h: Seq<EntryView>, i: int, j: int)
    requires
        0 <= i <= j < h.len(),
        s.keeps(h, j),
    ensures
        0 <= s.rank(h, i, j) < s.kept_from(h, i).len(),
        s.kept_from(h, i)[s.rank(h, i, j)] == h[j],
    decreases j - i,
{
    if i < j {
        lemma_kept_rank(s, h, i + 1, j);
        if s.keeps(h, i) {
            assert(s.kept_from(h, i) =~= seq![h[i]] + s.kept_from(h, i + 1));
        }
    } else {
        assert(s.kept_from(h, i) =~= seq![h[i]] + s.kept_from(h, i + 1));
    }
}

/// What reclamation keeps of a well-formed history is a well-formed history.
pub proof fn lemma_kept_history(s: CoreView, h: Seq<EntryView>)
    requires
        history_wf(h),
    ensures
        history_wf(s.kept_from(h, 0)),
{
    let kept = s.kept_from(h, 0);
    assert forall|x: int| 0 <= x < kept.len() implies (#[trigger] kept[x]).since
        <= kept[x].through by {
        lemma_kept_origin(s, h, 0, x);
        assert(h[s.origin(h, 0, x)].since <= h[s.origin(h, 0, x)].through);
    }
    assert forall|x: int, y: int| 0 <= x < kept.len() && 0 <= y < kept.len() && x != y implies (
    #[trigger] kept[x]).through < (#[trigger] kept[y]).since || kept[y].through
        < kept[x].since by {
        lemma_kept_origin(s, h, 0, x);
        lemma_kept_origin(s, h, 0, y);
        if x < y {
            lemma_kept_order(s, h, 0, x, y);
        } else {
            lemma_kept_order(s, h, 0, y, x);
        }
        let a = s.origin(h, 0, x);
        let b = s.origin(h, 0, y);
        assert(h[a].through < h[b].since || h[b].through < h[a].since);
    }
}

/// Reclamation keeps the invariant of the graph.
pub proof fn lemma_reclaim_keeps_wf(s: CoreView)
    requires
        s.wf(),
    ensures
        s.after_reclaim().wf(),
{
    let t = s.after_reclaim();
    assert forall|k: int| 0 <= k < t.nodes.len() implies history_wf(#[trigger] t.nodes[k])
        && history_fits(t.nodes[k], t.current, t.nodes.len()) by {
        let h = s.nodes[k];
        let h2 = t.nodes[k];
        assert(history_wf(h));
        lemma_kept_history(s, h);
        assert forall|x: int| 0 <= x < h2.len() implies (#[trigger] h2[x]).through
            <= t.current by {
            lemma_kept_origin(s, h, 0, x);
            let j = s.origin(h, 0, x);
            assert(s.nodes[k][j].through <= s.current);
        }
        assert forall|x: int, d: int| 0 <= x < h2.len() && 0 <= d < h2[x].deps.len() implies (
        #[trigger] h2[x].deps[d])@ < t.nodes.len() by {
            lemma_kept_origin(s, h, 0, x);
            let j = s.origin(h, 0, x);
            assert(s.nodes[k][j].deps[d]@ < s.nodes.len());
        }
    }
    assert forall|k: int, i: int| 0 <= k < t.nodes.len() && 0 <= i < t.nodes[k].len() implies (
    #[trigger] t.nodes[k][i]).through <= t.current by {
        assert(history_fits(t.nodes[k], t.current, t.nodes.len()));
    }
    assert forall|k: int, i: int, d: int|
        0 <= k < t.nodes.len() && 0 <= i < t.nodes[k].len() && 0 <= d
            < t.nodes[k][i].deps.len() implies (#[trigger] t.nodes[k][i].deps[d])@
        < t.nodes.len() by {
        assert(history_fits(t.nodes[k], t.current, t.nodes.len()));
    }
    assert forall|f: int| 0 <= f < t.flights.len() implies {
        &&& t.knows((#[trigger] t.flights[f]).key)
        &&& t.flights[f].version <= t.current
    } by {
        assert(s.knows(s.flights[f].key));
    }
}

} // verus!
