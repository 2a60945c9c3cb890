//! Memoization is sound: a record says what the computation body would say.
//!
//! A computation body is taken for a function `f` from a key and what the body read
//! to an outcome. A record of a key is justified at a version at which it holds if
//! each key that the record names as a dependency is settled at that version, and
//! `f`, given what those keys hold at that version, gives the outcome of the record.
//! Records without dependencies (inputs and constants) and records of cycles need
//! no justification. The laws below say that no operation of the graph ever leaves
//! an unjustified record behind, provided that the outcomes handed in are the ones
//! that `f` gives.

use vstd::prelude::*;
use crate::key::KeyId;
use crate::laws::{commit_keeps_the_past, evaluations_keep_records, state_of_by_record};
use crate::model::{
    flight_of, in_flight, lemma_commit_keeps_wf, lemma_extend_history, lemma_finish_keeps_wf,
    lemma_predecessor_exists, lemma_revalidate_keeps_wf, settled_state, tainted, ChangeView,
    CoreView, NodeStateView, CHANGED, CONFIRMED, DIRTY, UNTOUCHED,
};
use crate::node::{
    covered, covering, covers, history_wf, is_predecessor, predecessor, EntryView, OutcomeView,
};

verus! {

/// What the keys in `deps` hold at version `v`, in order.
pub open spec fn reads_at(s: CoreView, deps: Seq<KeyId>, v: nat) -> Seq<NodeStateView> {
    Seq::new(deps.len(), |j: int| s.state_of(deps[j], v))
}

/// Whether every key in `deps` is settled at version `v`.
pub open spec fn all_settled(s: CoreView, deps: Seq<KeyId>, v: nat) -> bool {
    forall|j: int| 0 <= j < deps.len() ==> s.settled(#[trigger] deps[j], v)
}

/// Whether an outcome with the dependencies `deps` is what the body `f` of `key`
/// gives at version `v`: the outcome is a cycle, or nothing was read, or every
/// dependency is settled at `v` and `f` gives the outcome for what they hold there.
pub open spec fn justified_outcome(
    s: CoreView,
    f: spec_fn(KeyId, Seq<NodeStateView>) -> OutcomeView,
    key: KeyId,
    outcome: OutcomeView,
    deps: Seq<KeyId>,
    v: nat,
) -> bool {
    ||| outcome is Cycle
    ||| deps.len() == 0
    ||| (all_settled(s, deps, v) && outcome == f(key, reads_at(s, deps, v)))
}

/// Whether the record at position `i` of the history of `key` holds at version `v`.
pub open spec fn holds_at(s: CoreView, key: KeyId, i: int, v: nat) -> bool {
    &&& s.knows(key)
    &&& 0 <= i < s.nodes[key@ as int].len()
    &&& covers(s.nodes[key@ as int][i], v)
}

/// Whether every record that holds at version `v` is justified there.
pub open spec fn justified_at(
    s: CoreView,
    f: spec_fn(KeyId, Seq<NodeStateView>) -> OutcomeView,
    v: nat,
) -> bool {
    forall|key: KeyId, i: int| #[trigger]
        holds_at(s, key, i, v) ==> justified_outcome(
            s,
            f,
            key,
            s.nodes[key@ as int][i].outcome,
            s.nodes[key@ as int][i].deps,
            v,
        )
}

/// Whether every record is justified at every version at which it holds.
pub open spec fn justified(
    s: CoreView,
    f: spec_fn(KeyId, Seq<NodeStateView>) -> OutcomeView,
) -> bool {
    forall|v: nat| #[trigger] justified_at(s, f, v)
}

/// Whether `t` holds at version `v` all that `s` holds there: what is settled in
/// `s` is settled in `t`, with the same content.
pub open spec fn keeps_at(s: CoreView, t: CoreView, v: nat) -> bool {
    forall|key: KeyId| #[trigger]
        s.settled(key, v) ==> t.settled(key, v) && t.state_of(key, v) == s.state_of(key, v)
}

/// What is justified stays justified where nothing that is settled changes.
pub proof fn justification_is_kept(
    s: CoreView,
    t: CoreView,
    f: spec_fn(KeyId, Seq<NodeStateView>) -> OutcomeView,
    key: KeyId,
    outcome: OutcomeView,
    deps: Seq<KeyId>,
    v: nat,
)
    requires
        keeps_at(s, t, v),
        justified_outcome(s, f, key, outcome, deps, v),
    ensures
        justified_outcome(t, f, key, outcome, deps, v),
{
    if !(outcome is Cycle) && deps.len() > 0 {
        assert forall|j: int| 0 <= j < deps.len() implies t.settled(#[trigger] deps[j], v)
            && t.state_of(deps[j], v) == s.state_of(deps[j], v) by {
            assert(s.settled(deps[j], v));
        }
        assert(reads_at(t, deps, v) =~= reads_at(s, deps, v));
    }
}

/// A graph without records is justified.
pub proof fn the_empty_graph_is_justified(f: spec_fn(KeyId, Seq<NodeStateView>) -> OutcomeView)
    ensures
        justified(CoreView::initial(), f),
{
    assert forall|v: nat| #[trigger] justified_at(CoreView::initial(), f, v) by {}
}

/// Requests, cancellations, the bookkeeping of versions in use and new keys leave
/// every record as it is, and with it its justification.
pub proof fn requests_keep_justification(
    s: CoreView,
    f: spec_fn(KeyId, Seq<NodeStateView>) -> OutcomeView,
    key: KeyId,
    v: nat,
    n: nat,
)
    requires
        s.wf(),
        justified(s, f),
    ensures
        justified(s.after_claim(key, v), f),
        justified(s.after_cancel(key, v), f),
        justified(s.after_withdraw(key, v), f),
        justified(s.with_keys(n), f),
{
    lemma_same_records(s, s.after_claim(key, v), f);
    lemma_same_records(s, s.after_cancel(key, v), f);
    lemma_same_records(s, s.after_withdraw(key, v), f);
    let t = s.with_keys(n);
    assert forall|k: int| 0 <= k < s.nodes.len() implies #[trigger] t.nodes[k] == s.nodes[k] by {}
    assert forall|k: int| s.nodes.len() <= k < t.nodes.len() implies (#[trigger] t.nodes[k]).len()
        == 0 by {}
    lemma_same_records(s, t, f);
}

/// Graphs with the same records, but for keys without any, are justified alike.
proof fn lemma_same_records(
    s: CoreView,
    t: CoreView,
    f: spec_fn(KeyId, Seq<NodeStateView>) -> OutcomeView,
)
    requires
        justified(s, f),
        s.nodes.len() <= t.nodes.len(),
        forall|k: int| 0 <= k < s.nodes.len() ==> #[trigger] t.nodes[k] == s.nodes[k],
        forall|k: int| s.nodes.len() <= k < t.nodes.len() ==> (#[trigger] t.nodes[k]).len() == 0,
    ensures
        justified(t, f),
{
    assert forall|v: nat| #[trigger] justified_at(t, f, v) by {
        assert(justified_at(s, f, v));
        assert forall|key: KeyId| #[trigger] s.settled(key, v) implies t.settled(key, v)
            && t.state_of(key, v) == s.state_of(key, v) by {}
        assert forall|key: KeyId, i: int| #[trigger]
            holds_at(t, key, i, v) implies justified_outcome(
            t,
            f,
            key,
            t.nodes[key@ as int][i].outcome,
            t.nodes[key@ as int][i].deps,
            v,
        ) by {
            assert(key@ < s.nodes.len());
            assert(holds_at(s, key, i, v));
            let e = s.nodes[key@ as int][i];
            justification_is_kept(s, t, f, key, e.outcome, e.deps, v);
        }
    }
}

/// The end of an evaluation changes nothing of what is settled.
proof fn lemma_finish_keeps_at(
    s: CoreView,
    key: KeyId,
    v: nat,
    outcome: OutcomeView,
    deps: Seq<KeyId>,
    u: nat,
)
    requires
        s.wf(),
        in_flight(s.flights, key, v),
        s.knows_all(deps),
    ensures
        keeps_at(s, s.after_finish(key, v, outcome, deps), u),
{
    let t = s.after_finish(key, v, outcome, deps);
    let fi = flight_of(s.flights, key, v);
    assert(s.knows(s.flights[fi].key));
    assert forall|other: KeyId| #[trigger] s.settled(other, u) implies t.settled(other, u)
        && t.state_of(other, u) == s.state_of(other, u) by {
        evaluations_keep_records(s, other, u, key, v, outcome, deps);
    }
}

/// Handing in the outcome that the body gives keeps every record justified.
pub proof fn finishing_keeps_justification(
    s: CoreView,
    f: spec_fn(KeyId, Seq<NodeStateView>) -> OutcomeView,
    key: KeyId,
    v: nat,
    outcome: OutcomeView,
    deps: Seq<KeyId>,
)
    requires
        s.wf(),
        in_flight(s.flights, key, v),
        s.knows_all(deps),
        justified(s, f),
        justified_outcome(s, f, key, outcome, deps, v),
    ensures
        justified(s.after_finish(key, v, outcome, deps), f),
{
    let t = s.after_finish(key, v, outcome, deps);
    let fi = flight_of(s.flights, key, v);
    assert(s.knows(s.flights[fi].key));
    let h = s.nodes[key@ as int];
    let h2 = t.nodes[key@ as int];
    assert(history_wf(h));
    assert forall|u: nat| #[trigger] justified_at(t, f, u) by {
        assert(justified_at(s, f, u));
        lemma_finish_keeps_at(s, key, v, outcome, deps, u);
        assert forall|other: KeyId, i: int| #[trigger]
            holds_at(t, other, i, u) implies justified_outcome(
            t,
            f,
            other,
            t.nodes[other@ as int][i].outcome,
            t.nodes[other@ as int][i].deps,
            u,
        ) by {
            let e = t.nodes[other@ as int][i];
            if other@ != key@ {
                assert(t.nodes[other@ as int] == s.nodes[other@ as int]);
                assert(holds_at(s, other, i, u));
                justification_is_kept(s, t, f, other, e.outcome, e.deps, u);
            } else {
                assert(other == key) by {
                    assert(other.0 == key.0);
                }
                if covered(h, v) {
                    assert(holds_at(s, key, i, u));
                    justification_is_kept(s, t, f, key, e.outcome, e.deps, u);
                } else if s.continues(key, v, outcome, deps) {
                    lemma_extend_history(h, v);
                    let p = predecessor(h, v);
                    if i == p && !covers(h[p], u) {
                        assert(u == v);
                        justification_is_kept(s, t, f, key, outcome, deps, v);
                    } else {
                        assert(holds_at(s, key, i, u));
                        justification_is_kept(s, t, f, key, e.outcome, e.deps, u);
                    }
                } else {
                    if i < h.len() {
                        assert(holds_at(s, key, i, u));
                        justification_is_kept(s, t, f, key, e.outcome, e.deps, u);
                    } else {
                        assert(u == v);
                        justification_is_kept(s, t, f, key, outcome, deps, v);
                    }
                }
            }
        }
    }
}

/// Early cutoff is sound: a record that is extended because none of its dependencies
/// changed is justified at every version that it comes to hold at.
pub proof fn early_cutoff_keeps_justification(
    s: CoreView,
    f: spec_fn(KeyId, Seq<NodeStateView>) -> OutcomeView,
    key: KeyId,
    v: nat,
)
    requires
        s.wf(),
        in_flight(s.flights, key, v),
        s.still_valid(key, v),
        justified(s, f),
    ensures
        justified(s.after_revalidate(key, v), f),
{
    let t = s.after_revalidate(key, v);
    let fi = flight_of(s.flights, key, v);
    assert(s.knows(s.flights[fi].key));
    let h = s.nodes[key@ as int];
    assert(history_wf(h));
    lemma_extend_history(h, v);
    let p = predecessor(h, v);
    let e = h[p];
    let last = e.through;
    assert(e.since <= e.through);
    assert(justified_at(s, f, last));
    assert(holds_at(s, key, p, last));
    assert forall|u: nat| #[trigger] justified_at(t, f, u) by {
        assert(justified_at(s, f, u));
        assert forall|other: KeyId| #[trigger] s.settled(other, u) implies t.settled(other, u)
            && t.state_of(other, u) == s.state_of(other, u) by {
            evaluations_keep_records(s, other, u, key, v, e.outcome, e.deps);
        }
        assert forall|other: KeyId, i: int| #[trigger]
            holds_at(t, other, i, u) implies justified_outcome(
            t,
            f,
            other,
            t.nodes[other@ as int][i].outcome,
            t.nodes[other@ as int][i].deps,
            u,
        ) by {
            let r = t.nodes[other@ as int][i];
            if other@ != key@ {
                assert(t.nodes[other@ as int] == s.nodes[other@ as int]);
                assert(holds_at(s, other, i, u));
                justification_is_kept(s, t, f, other, r.outcome, r.deps, u);
            } else {
                assert(other == key) by {
                    assert(other.0 == key.0);
                }
                if i == p && !covers(h[p], u) {
                    // the record comes to hold at `u`, between its old end and `v`
                    assert(last < u <= v);
                    if !(e.outcome is Cycle) && e.deps.len() > 0 {
                        assert(all_settled(s, e.deps, last));
                        assert forall|j: int| 0 <= j < e.deps.len() implies t.settled(
                            #[trigger] e.deps[j],
                            u,
                        ) && t.state_of(e.deps[j], u) == s.state_of(e.deps[j], last) by {
                            let d = e.deps[j];
                            assert(s.unchanged_between(d, last, v));
                            let g = s.nodes[d@ as int];
                            let c = covering(g, v);
                            assert(covers(g[c], v));
                            assert(covers(g[c], u));
                            assert(covers(g[c], last));
                            state_of_by_record(s, d, u, c);
                            state_of_by_record(s, d, last, c);
                            assert(s.settled(d, u));
                        }
                        assert(reads_at(t, e.deps, u) =~= reads_at(s, e.deps, last));
                    }
                } else {
                    assert(holds_at(s, key, i, u));
                    justification_is_kept(s, t, f, key, r.outcome, r.deps, u);
                }
            }
        }
    }
}

/// At a commit, a key that is neither changed nor dirty and is settled at the old
/// version is settled at the new version, with the same content.
proof fn lemma_commit_carries(s: CoreView, c: Seq<ChangeView>, d: KeyId)
    requires
        s.wf(),
        s.settled(d, s.current),
        !tainted(s.spread(s.stage_marks(c))[d@ as int]),
    ensures
        s.after_commit(c).settled(d, s.current + 1),
        s.after_commit(c).state_of(d, s.current + 1) == s.state_of(d, s.current),
{
    let t = s.after_commit(c);
    lemma_commit_keeps_wf(s, c);
    let k = d@ as int;
    let h = s.nodes[k];
    let x = covering(h, s.current);
    assert(covers(h[x], s.current));
    let mark = s.spread(s.stage_marks(c))[k];
    assert(mark == CONFIRMED || mark == UNTOUCHED) by {
        assert(s.stage_marks(c)[k] == s.stage_mark(c, k));
    }
    let h2 = t.nodes[k];
    assert(h2 == h.update(x, EntryView { through: s.current + 1, ..h[x] }));
    assert(covers(h2[x], s.current + 1));
    state_of_by_record(t, d, s.current + 1, x);
    state_of_by_record(s, d, s.current, x);
}

/// At a commit, the record of a key that stays untouched rests on no key that is
/// changed or dirty.
proof fn lemma_untouched_rests_on_clean(s: CoreView, c: Seq<ChangeView>, k: int, j: int)
    requires
        s.wf(),
        s.has_current(k),
        s.spread(s.stage_marks(c))[k] == UNTOUCHED,
        0 <= j < s.current_record(k).deps.len(),
    ensures
        !tainted(s.spread(s.stage_marks(c))[s.current_record(k).deps[j]@ as int]),
{
    let base = s.stage_marks(c);
    let marks = s.spread(base);
    let deps = s.current_record(k).deps;
    if tainted(marks[deps[j]@ as int]) {
        assert forall|x: int| 0 <= x < base.len() implies #[trigger] base[x] != DIRTY by {
            assert(base[x] == s.stage_mark(c, x));
        }
        assert(crate::model::rests_on_tainted(deps, marks));
        assert(base[k] == UNTOUCHED);
        crate::model::lemma_mark_sound(s, base, marks, k);
    }
}

/// A commit keeps every record justified: the records that it lets hold at the new
/// version rest only on keys that hold there what they held before.
pub proof fn commits_keep_justification(
    s: CoreView,
    f: spec_fn(KeyId, Seq<NodeStateView>) -> OutcomeView,
    c: Seq<ChangeView>,
)
    requires
        s.wf(),
        justified(s, f),
    ensures
        justified(s.after_commit(c), f),
{
    let t = s.after_commit(c);
    let next = s.current + 1;
    lemma_commit_keeps_wf(s, c);
    assert(justified_at(s, f, s.current));
    assert forall|u: nat| #[trigger] justified_at(t, f, u) by {
        assert(justified_at(s, f, u));
        if u <= s.current {
            assert forall|other: KeyId| #[trigger] s.settled(other, u) implies t.settled(other, u)
                && t.state_of(other, u) == s.state_of(other, u) by {
                commit_keeps_the_past(s, c, other, u);
            }
        }
        assert forall|key: KeyId, i: int| #[trigger]
            holds_at(t, key, i, u) implies justified_outcome(
            t,
            f,
            key,
            t.nodes[key@ as int][i].outcome,
            t.nodes[key@ as int][i].deps,
            u,
        ) by {
            let k = key@ as int;
            let h = s.nodes[k];
            let h2 = t.nodes[k];
            let r = h2[i];
            let mark = s.spread(s.stage_marks(c))[k];
            assert forall|x: int| 0 <= x < h.len() implies (#[trigger] h[x]).through
                <= s.current by {
                assert(s.nodes[k][x].through <= s.current);
            }
            assert(history_wf(h));
            if u <= s.current {
                if i < h.len() {
                    assert(h[i].through <= s.current);
                    assert(covers(h[i], u));
                    assert(holds_at(s, key, i, u));
                    assert(r.outcome == h[i].outcome && r.deps == h[i].deps);
                    justification_is_kept(s, t, f, key, r.outcome, r.deps, u);
                }
            } else if i < h.len() {
                // an old record that the commit lets hold at the new version
                assert(h[i].through <= s.current);
                assert(u == next);
                assert(s.has_current(k));
                let x = covering(h, s.current);
                assert(covers(h[x], s.current));
                assert(i == x);
                assert(holds_at(s, key, x, s.current));
                if !(r.outcome is Cycle) && r.deps.len() > 0 {
                    assert(mark == UNTOUCHED) by {
                        assert(s.stage_marks(c)[k] == s.stage_mark(c, k));
                    }
                    assert(all_settled(s, r.deps, s.current));
                    assert forall|j: int| 0 <= j < r.deps.len() implies t.settled(
                        #[trigger] r.deps[j],
                        next,
                    ) && t.state_of(r.deps[j], next) == s.state_of(r.deps[j], s.current) by {
                        lemma_untouched_rests_on_clean(s, c, k, j);
                        assert(s.settled(r.deps[j], s.current));
                        lemma_commit_carries(s, c, r.deps[j]);
                    }
                    assert(reads_at(t, r.deps, next) =~= reads_at(s, r.deps, s.current));
                }
            }
        }
    }
}

/// Reclamation keeps the justification of every version that is current or in use:
/// what holds there stays, and so does all that it rests on.
pub proof fn reclamation_keeps_justification(
    s: CoreView,
    f: spec_fn(KeyId, Seq<NodeStateView>) -> OutcomeView,
    v: u64,
)
    requires
        s.wf(),
        v == s.current || s.active.count(v) > 0,
        justified_at(s, f, v as nat),
    ensures
        justified_at(s.after_reclaim(), f, v as nat),
{
    let t = s.after_reclaim();
    assert forall|other: KeyId| #[trigger] s.settled(other, v as nat) implies t.settled(
        other,
        v as nat,
    ) && t.state_of(other, v as nat) == s.state_of(other, v as nat) by {
        crate::laws::reclamation_keeps_what_is_in_use(s, other, v);
    }
    assert forall|key: KeyId, i: int| #[trigger]
        holds_at(t, key, i, v as nat) implies justified_outcome(
        t,
        f,
        key,
        t.nodes[key@ as int][i].outcome,
        t.nodes[key@ as int][i].deps,
        v as nat,
    ) by {
        let h = s.nodes[key@ as int];
        let r = t.nodes[key@ as int][i];
        crate::model::lemma_kept_origin(s, h, 0, i);
        let o = s.origin(h, 0, i);
        assert(holds_at(s, key, o, v as nat));
        justification_is_kept(s, t, f, key, r.outcome, r.deps, v as nat);
    }
}

} // verus!
