//! What holds of the engine as a whole: laws that relate several operations, each
//! stated over the model of the graph and proved from it.

use vstd::prelude::*;
use crate::key::KeyId;
use crate::model::{
    conflicts_at, flight_of, in_flight, is_latest, lemma_commit_keeps_wf, lemma_extend_history,
    lemma_finish_keeps_wf, lemma_kept_origin, lemma_kept_rank, lemma_reclaim_keeps_wf,
    lemma_revalidate_keeps_wf, settled_state, staged_at, staged_value, stages, ChangeView, ClaimView,
    CoreView, NodeStateView, CHANGED, CONFIRMED, DIRTY, UNTOUCHED,
};
use crate::dice::{commit_result, keys_after_commit, released, resolved, state_after_commit};
use crate::key::KeyView;
use crate::key_index::{distinct, id_of, interning_all_keeps_distinct, knows};
use crate::transaction::staged_keys;
use crate::node::{covered, covering, covers, history_wf, predecessor, EntryView, OutcomeView};

verus! {

/// A reader sees what the one record says that holds at the version.
pub proof fn state_of_by_record(s: CoreView, key: KeyId, v: nat, i: int)
    requires
        s.wf(),
        s.knows(key),
        0 <= i < s.nodes[key@ as int].len(),
        covers(s.nodes[key@ as int][i], v),
    ensures
        s.settled(key, v),
        covering(s.nodes[key@ as int], v) == i,
        s.state_of(key, v) == settled_state(s.nodes[key@ as int][i]),
{
    let h = s.nodes[key@ as int];
    assert(history_wf(h));
    let c = covering(h, v);
    assert(covers(h[c], v));
}

/// The graph after the batches were committed one after the other, each of them
/// accepted.
pub open spec fn after_commits(s: CoreView, batches: Seq<Seq<ChangeView>>) -> CoreView
    decreases batches.len(),
{
    if batches.len() == 0 {
        s
    } else {
        after_commits(s, batches.drop_last()).after_commit(batches.last())
    }
}

/// Every commit advances the version by exactly one: after `n` commits the current
/// version is the initial one plus `n`, and of any two commits the later installs
/// the greater version.
pub proof fn commits_count_versions(s: CoreView, batches: Seq<Seq<ChangeView>>, i: int, j: int)
    requires
        s.wf(),
        0 <= i <= j <= batches.len(),
    ensures
        after_commits(s, batches).wf(),
        after_commits(s, batches).current == s.current + batches.len(),
        after_commits(s, batches.take(i)).current == s.current + i,
        i < j ==> after_commits(s, batches.take(i)).current < after_commits(
            s,
            batches.take(j),
        ).current,
    decreases batches.len(),
{
    if batches.len() > 0 {
        let rest = batches.drop_last();
        commits_count_versions(s, rest, 0, 0);
        lemma_commit_keeps_wf(after_commits(s, rest), batches.last());
    }
    lemma_commits_current(s, batches.take(i));
    lemma_commits_current(s, batches.take(j));
}

/// After `n` commits the current version is the initial one plus `n`.
proof fn lemma_commits_current(s: CoreView, batches: Seq<Seq<ChangeView>>)
    ensures
        after_commits(s, batches).current == s.current + batches.len(),
    decreases batches.len(),
{
    if batches.len() > 0 {
        lemma_commits_current(s, batches.drop_last());
    }
}

/// Only the caller that is granted the evaluation of a key at a version runs the
/// computation body: while the evaluation runs, every other request for the same
/// key and version shares it.
pub proof fn a_running_evaluation_is_shared(s: CoreView, key: KeyId, v: u64)
    requires
        s.wf(),
        s.knows(key),
        s.claim_of(key, v as nat) is Granted,
    ensures
        s.after_claim(key, v as nat).claim_of(key, v as nat) == ClaimView::Shared,
        s.after_claim(key, v as nat).state_of(key, v as nat) == NodeStateView::InFlight,
{
    let t = s.after_claim(key, v as nat);
    assert(t.flights[s.flights.len() as int].key == key);
    assert(t.flights[s.flights.len() as int].version == v);
}

/// Memoization: once the evaluation of a key at a version has ended, every later
/// request for that key and version gets the record and no right to evaluate.
pub proof fn a_finished_evaluation_is_settled(
    s: CoreView,
    key: KeyId,
    v: nat,
    outcome: OutcomeView,
    deps: Seq<KeyId>,
)
    requires
        s.wf(),
        in_flight(s.flights, key, v),
        s.knows_all(deps),
    ensures
        s.after_finish(key, v, outcome, deps).claim_of(key, v) is Settled,
        s.after_finish(key, v, outcome, deps).state_of(key, v) !is Missing,
        s.after_finish(key, v, outcome, deps).state_of(key, v) !is InFlight,
        !s.settled(key, v) ==> s.after_finish(key, v, outcome, deps).state_of(key, v)
            == settled_state(EntryView { since: 0, through: 0, outcome, deps }),
{
    lemma_finish_keeps_wf(s, key, v, outcome, deps);
    let t = s.after_finish(key, v, outcome, deps);
    let h = s.nodes[key@ as int];
    let h2 = t.nodes[key@ as int];
    let c = covering(h2, v);
    assert(covers(h2[c], v));
    if !s.settled(key, v) {
        let fi = flight_of(s.flights, key, v);
        assert(s.knows(s.flights[fi].key));
        assert(forall|i: int| 0 <= i < h.len() ==> !covers(#[trigger] h[i], v));
        if s.continues(key, v, outcome, deps) {
            lemma_extend_history(h, v);
            let p = predecessor(h, v);
            if c != p {
                assert(h2[c] == h[c]);
            }
        } else {
            if c < h.len() {
                assert(h2[c] == h[c]);
            }
        }
    }
}

/// A record, once it holds at a version, keeps holding there with the same content
/// whatever evaluation of whatever key begins or ends afterwards.
pub proof fn evaluations_keep_records(
    s: CoreView,
    key: KeyId,
    v: nat,
    other: KeyId,
    w: nat,
    outcome: OutcomeView,
    deps: Seq<KeyId>,
)
    requires
        s.wf(),
        s.settled(key, v),
        s.knows(other),
    ensures
        s.after_claim(other, w).state_of(key, v) == s.state_of(key, v),
        in_flight(s.flights, other, w) && s.knows_all(deps) ==> s.after_finish(
            other,
            w,
            outcome,
            deps,
        ).state_of(key, v) == s.state_of(key, v),
        in_flight(s.flights, other, w) && s.still_valid(other, w) ==> s.after_revalidate(
            other,
            w,
        ).state_of(key, v) == s.state_of(key, v),
{
    let h = s.nodes[key@ as int];
    let i = covering(h, v);
    assert(covers(h[i], v));
    if in_flight(s.flights, other, w) && s.knows_all(deps) {
        lemma_finish_keeps_wf(s, other, w, outcome, deps);
        let t = s.after_finish(other, w, outcome, deps);
        if other@ == key@ {
            assert(other == key) by {
                assert(other.0 == key.0);
            }
            let g = s.nodes[other@ as int];
            if !covered(g, w) {
                if s.continues(other, w, outcome, deps) {
                    lemma_extend_history(g, w);
                    let p = predecessor(g, w);
                    if i == p {
                        assert(covers(t.nodes[key@ as int][i], v));
                    } else {
                        assert(t.nodes[key@ as int][i] == h[i]);
                    }
                    state_of_by_record(t, key, v, i);
                } else {
                    assert(t.nodes[key@ as int][i] == h[i]);
                    state_of_by_record(t, key, v, i);
                }
            }
        } else {
            assert(t.nodes[key@ as int] == h);
        }
    }
    if in_flight(s.flights, other, w) && s.still_valid(other, w) {
        lemma_revalidate_keeps_wf(s, other, w);
        let t = s.after_revalidate(other, w);
        if other@ == key@ {
            assert(other.0 == key.0);
            let p = predecessor(h, w);
            lemma_extend_history(h, w);
            if i == p {
                assert(covers(t.nodes[key@ as int][i], v));
            } else {
                assert(t.nodes[key@ as int][i] == h[i]);
            }
            state_of_by_record(t, key, v, i);
        } else {
            assert(t.nodes[key@ as int] == h);
        }
    }
}

/// Early cutoff at commit: a record that holds at the current version, of a key that
/// the batch neither sets nor reaches through dependencies, holds at the new version
/// too, with the same content. No evaluation is needed to read it there.
pub proof fn unrelated_commit_keeps_record(s: CoreView, c: Seq<ChangeView>, key: KeyId)
    requires
        s.wf(),
        s.settled(key, s.current),
        !stages(c, key@ as int),
        !s.affected(s.stage_marks(c), key@ as int),
    ensures
        s.after_commit(c).settled(key, s.current + 1),
        s.after_commit(c).state_of(key, s.current + 1) == s.state_of(key, s.current),
        s.after_commit(c).claim_of(key, s.current + 1) is Settled,
{
    let t = s.after_commit(c);
    lemma_commit_keeps_wf(s, c);
    let k = key@ as int;
    let h = s.nodes[k];
    let i = covering(h, s.current);
    assert(covers(h[i], s.current));
    assert(s.stage_marks(c)[k] == UNTOUCHED);
    assert(s.spread(s.stage_marks(c))[k] == UNTOUCHED);
    let h2 = t.nodes[k];
    assert(h2 == h.update(i, EntryView { through: s.current + 1, ..h[i] }));
    assert(covers(h2[i], s.current + 1));
    state_of_by_record(t, key, s.current + 1, i);
}

/// A commit dirties what rests on a changed key: no record of an affected key holds
/// at the new version, so the next request for it there is granted, shared or
/// rechecked, never answered from the old record.
pub proof fn affected_keys_are_dirty(s: CoreView, c: Seq<ChangeView>, key: KeyId)
    requires
        s.wf(),
        s.knows(key),
        s.affected(s.stage_marks(c), key@ as int),
    ensures
        !s.after_commit(c).settled(key, s.current + 1),
{
    let t = s.after_commit(c);
    let k = key@ as int;
    let h = s.nodes[k];
    assert(s.spread(s.stage_marks(c))[k] == DIRTY);
    assert(t.nodes[k] == h);
    assert forall|i: int| 0 <= i < h.len() implies !covers(#[trigger] h[i], s.current + 1) by {
        assert(s.nodes[k][i].through <= s.current);
    }
}

/// Round trip, forwards: a committed batch that sets a key to a value leaves that
/// value, resting on nothing, as what readers of the new version see for the key.
pub proof fn committed_input_is_read_back(s: CoreView, c: Seq<ChangeView>, key: KeyId)
    requires
        s.wf(),
        s.knows(key),
        stages(c, key@ as int),
    ensures
        s.after_commit(c).state_of(key, s.current + 1) == (NodeStateView::Done {
            value: staged_value(c, key@ as int),
            deps: Seq::empty(),
        }),
{
    let t = s.after_commit(c);
    lemma_commit_keeps_wf(s, c);
    let k = key@ as int;
    let h = s.nodes[k];
    let mark = s.stage_marks(c)[k];
    assert(mark == s.stage_mark(c, k));
    assert(mark == CONFIRMED || mark == CHANGED);
    assert(s.spread(s.stage_marks(c))[k] == mark);
    let h2 = t.nodes[k];
    if mark == CHANGED {
        assert(covers(h2[h.len() as int], s.current + 1));
        state_of_by_record(t, key, s.current + 1, h.len() as int);
    } else {
        let i = covering(h, s.current);
        assert(covers(h[i], s.current));
        assert(covers(h2[i], s.current + 1));
        state_of_by_record(t, key, s.current + 1, i);
        assert(h2[i].deps =~= Seq::<KeyId>::empty());
    }
}

/// New keys get their places without a change to what is there.
pub proof fn new_keys_keep_the_invariant(s: CoreView, n: nat)
    requires
        s.wf(),
    ensures
        s.with_keys(n).wf(),
        forall|key: KeyId, v: nat| #[trigger]
            s.with_keys(n).state_of(key, v) == s.state_of(key, v),
{
    let t = s.with_keys(n);
    assert forall|k: int| 0 <= k < t.nodes.len() implies history_wf(#[trigger] t.nodes[k]) by {
        if k < s.nodes.len() {
            assert(t.nodes[k] == s.nodes[k]);
        }
    }
    assert forall|k: int, i: int| 0 <= k < t.nodes.len() && 0 <= i < t.nodes[k].len() implies (
    #[trigger] t.nodes[k][i]).through <= t.current by {
        assert(t.nodes[k][i] == s.nodes[k][i]);
    }
    assert forall|k: int, i: int, d: int|
        0 <= k < t.nodes.len() && 0 <= i < t.nodes[k].len() && 0 <= d
            < t.nodes[k][i].deps.len() implies (#[trigger] t.nodes[k][i].deps[d])@
        < t.nodes.len() by {
        assert(s.nodes[k][i].deps[d]@ < s.nodes.len());
    }
    assert forall|f: int| 0 <= f < t.flights.len() implies {
        &&& t.knows((#[trigger] t.flights[f]).key)
        &&& t.flights[f].version <= t.current
    } by {
        assert(s.knows(s.flights[f].key));
    }
    assert forall|key: KeyId, v: nat| #[trigger]
        t.state_of(key, v) == s.state_of(key, v) by {
        if key@ < s.nodes.len() {
            assert(t.nodes[key@ as int] == s.nodes[key@ as int]);
        } else if key@ < t.nodes.len() {
            assert(t.nodes[key@ as int].len() == 0);
        }
    }
}

/// Round trip through the engine: where a transaction is committed, every key that
/// it set is read back at the new version with the value that it was set to.
pub proof fn committed_transaction_is_read_back(
    keys: Seq<KeyView>,
    state: CoreView,
    batch: Seq<(KeyView, Seq<u8>)>,
    i: int,
)
    requires
        distinct(keys),
        state.wf(),
        state.nodes.len() == keys.len(),
        commit_result(keys, state, batch) is Committed,
        0 <= i < batch.len(),
    ensures
        knows(keys_after_commit(keys, state, batch), batch[i].0),
        state_after_commit(keys, state, batch).state_of(
            KeyId(id_of(keys_after_commit(keys, state, batch), batch[i].0) as u32),
            state.current + 1,
        ) == (NodeStateView::Done { value: batch[i].1, deps: Seq::empty() }),
{
    let names = staged_keys(batch);
    let all = keys_after_commit(keys, state, batch);
    interning_all_keeps_distinct(keys, names);
    assert(names[i] == batch[i].0);
    assert(knows(all, batch[i].0));
    let id = id_of(all, batch[i].0);
    assert(0 <= id < all.len() && all[id] == batch[i].0);
    let key = KeyId(id as u32);
    let changes = resolved(all, batch);
    let wide = state.with_keys(all.len());
    new_keys_keep_the_invariant(state, all.len());
    assert(changes[i].key == key);
    assert(stages(changes, id));
    let x = staged_at(changes, id);
    assert(changes[x].key@ == id);
    assert(changes[x].key == changes[i].key) by {
        assert(changes[x].key.0 == changes[i].key.0);
    }
    if changes[x].value != changes[i].value {
        if x < i {
            assert(conflicts_at(changes, i));
        } else {
            assert(conflicts_at(changes, x));
        }
    }
    committed_input_is_read_back(wide, changes, key);
}

/// Round trip, backwards: a commit changes nothing of what readers of an earlier
/// version see, for any key.
pub proof fn commit_keeps_the_past(s: CoreView, c: Seq<ChangeView>, key: KeyId, v: nat)
    requires
        s.wf(),
        v <= s.current,
    ensures
        s.after_commit(c).state_of(key, v) == s.state_of(key, v),
{
    let t = s.after_commit(c);
    lemma_commit_keeps_wf(s, c);
    if s.knows(key) {
        let k = key@ as int;
        let h = s.nodes[k];
        let h2 = t.nodes[k];
        assert(history_wf(h));
        assert(history_wf(h2));
        assert forall|i: int| 0 <= i < h.len() implies (#[trigger] h[i]).through <= s.current by {
            assert(s.nodes[k][i].through <= s.current);
        }
        assert forall|i: int| 0 <= i < h.len() implies covers(#[trigger] h2[i], v) == covers(
            h[i],
            v,
        ) && settled_state(h2[i]) == settled_state(h[i]) by {
            assert(h[i].through <= s.current);
        }
        assert forall|i: int| h.len() <= i < h2.len() implies !covers(#[trigger] h2[i], v) by {}
        if covered(h, v) {
            let i = covering(h, v);
            assert(covers(h[i], v));
            assert(covers(h2[i], v));
            state_of_by_record(t, key, v, i);
        } else if covered(h2, v) {
            let i = covering(h2, v);
            assert(covers(h2[i], v));
            assert(i < h.len());
            assert(covers(h[i], v));
        }
    }
}

/// Concurrent requests: of two callers that ask for an unsettled key at the same
/// version, the first is granted the evaluation and the second shares it; once the
/// first has handed the outcome in, both read the same record.
pub proof fn two_callers_one_evaluation(
    s: CoreView,
    key: KeyId,
    v: u64,
    outcome: OutcomeView,
    deps: Seq<KeyId>,
)
    requires
        s.wf(),
        s.knows(key),
        v <= s.current,
        s.claim_of(key, v as nat) is Granted,
        s.knows_all(deps),
    ensures
        s.after_claim(key, v as nat).claim_of(key, v as nat) == ClaimView::Shared,
        in_flight(s.after_claim(key, v as nat).after_claim(key, v as nat).flights, key, v as nat),
        s.after_claim(key, v as nat).after_claim(key, v as nat).after_finish(
            key,
            v as nat,
            outcome,
            deps,
        ).claim_of(key, v as nat) is Settled,
        s.after_claim(key, v as nat).after_claim(key, v as nat).after_finish(
            key,
            v as nat,
            outcome,
            deps,
        ).state_of(key, v as nat) == settled_state(
            EntryView { since: 0, through: 0, outcome, deps },
        ),
{
    a_running_evaluation_is_shared(s, key, v);
    let t1 = s.after_claim(key, v as nat);
    claims_keep_the_invariant(s, key, v);
    let t2 = t1.after_claim(key, v as nat);
    claims_keep_the_invariant(t1, key, v);
    let i = flight_of(t1.flights, key, v as nat);
    assert(t1.flights[i].key == key && t1.flights[i].version == v);
    assert(t2.flights[i].key == key && t2.flights[i].version == v);
    assert(t2.knows_all(deps)) by {
        assert forall|d: int| 0 <= d < deps.len() implies t2.knows(#[trigger] deps[d]) by {
            assert(s.knows(deps[d]));
        }
    }
    a_finished_evaluation_is_settled(t2, key, v as nat, outcome, deps);
}

/// A request keeps the invariant of the graph.
pub proof fn claims_keep_the_invariant(s: CoreView, key: KeyId, v: u64)
    requires
        s.wf(),
        s.knows(key),
        v <= s.current,
    ensures
        s.after_claim(key, v as nat).wf(),
{
    let t = s.after_claim(key, v as nat);
    if s.settled(key, v as nat) {
    } else if in_flight(s.flights, key, v as nat) {
        assert forall|f: int| 0 <= f < t.flights.len() implies (#[trigger] t.flights[f]).key
            == s.flights[f].key && t.flights[f].version == s.flights[f].version by {}
        assert forall|f: int| 0 <= f < t.flights.len() implies {
            &&& t.knows((#[trigger] t.flights[f]).key)
            &&& t.flights[f].version <= t.current
        } by {
            assert(s.knows(s.flights[f].key));
        }
    } else {
        assert forall|f: int| 0 <= f < t.flights.len() implies {
            &&& t.knows((#[trigger] t.flights[f]).key)
            &&& t.flights[f].version <= t.current
        } by {
            if f < s.flights.len() {
                assert(t.flights[f] == s.flights[f]);
                assert(s.knows(s.flights[f].key));
            }
        }
        assert forall|f: int, g: int|
            0 <= f < t.flights.len() && 0 <= g < t.flights.len() && (#[trigger] t.flights[f]).key
                == (#[trigger] t.flights[g]).key && t.flights[f].version
                == t.flights[g].version implies f == g by {
            if f < s.flights.len() {
                assert(t.flights[f] == s.flights[f]);
            }
            if g < s.flights.len() {
                assert(t.flights[g] == s.flights[g]);
            }
        }
    }
}

/// Reclamation is invisible to readers of the current version and of every version
/// in use: for any key they see what they saw before.
pub proof fn reclamation_keeps_what_is_in_use(s: CoreView, key: KeyId, v: u64)
    requires
        s.wf(),
        v == s.current || s.active.count(v) > 0,
    ensures
        s.after_reclaim().wf(),
        s.after_reclaim().state_of(key, v as nat) == s.state_of(key, v as nat),
{
    let t = s.after_reclaim();
    lemma_reclaim_keeps_wf(s);
    if s.knows(key) {
        let k = key@ as int;
        let h = s.nodes[k];
        let kept = t.nodes[k];
        assert(history_wf(h));
        if covered(h, v as nat) {
            let c = covering(h, v as nat);
            assert(covers(h[c], v as nat));
            assert(s.in_use(h[c]));
            lemma_kept_rank(s, h, 0, c);
            state_of_by_record(t, key, v as nat, s.rank(h, 0, c));
        } else if covered(kept, v as nat) {
            let x = covering(kept, v as nat);
            assert(covers(kept[x], v as nat));
            lemma_kept_origin(s, h, 0, x);
            assert(covers(h[s.origin(h, 0, x)], v as nat));
        }
    }
}

/// Reclamation never takes the record that early cutoff starts from: the latest
/// record of every key is among the records that stay.
pub proof fn reclamation_keeps_the_latest_record(s: CoreView, key: KeyId, i: int)
    requires
        s.wf(),
        s.knows(key),
        is_latest(s.nodes[key@ as int], i),
    ensures
        0 <= s.rank(s.nodes[key@ as int], 0, i) < s.after_reclaim().nodes[key@ as int].len(),
        s.after_reclaim().nodes[key@ as int][s.rank(s.nodes[key@ as int], 0, i)]
            == s.nodes[key@ as int][i],
{
    lemma_kept_rank(s, s.nodes[key@ as int], 0, i);
}

/// Idleness lasts: no request, no end of an evaluation, no commit and no
/// reclamation puts a version in use. An idle engine stays idle until a version is
/// held or a transaction is opened, and giving a version back on an idle engine
/// changes nothing.
pub proof fn idle_stays_idle(
    s: CoreView,
    key: KeyId,
    v: nat,
    outcome: OutcomeView,
    deps: Seq<KeyId>,
    c: Seq<ChangeView>,
    n: nat,
    version: u64,
)
    requires
        s.active.len() == 0,
    ensures
        s.after_claim(key, v).active.len() == 0,
        s.after_finish(key, v, outcome, deps).active.len() == 0,
        s.after_revalidate(key, v).active.len() == 0,
        s.after_commit(c).active.len() == 0,
        s.after_cancel(key, v).active.len() == 0,
        s.after_withdraw(key, v).active.len() == 0,
        s.after_reclaim().active.len() == 0,
        s.with_keys(n).active.len() == 0,
        released(s, version, true) == s,
        s.active.insert(version).len() > 0,
{
    assert(s.active.count(version) == 0) by {
        if s.active.count(version) > 0 {
            assert(s.active.remove(version).len() == s.active.len() - 1);
        }
    }
}

} // verus!
