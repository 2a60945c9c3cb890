use dice::change::InputChange;
use dice::error::EngineError;
use dice::key::KeyId;
use dice::node::Outcome;
use dice::state::{Claim, CoreState, EvaluationHandle, NodeState};
use dice::version::VersionNumber;

fn graph_with_keys(n: usize) -> CoreState {
    let mut state = CoreState::new();
    for _ in 0..n {
        state.add_key();
    }
    state
}

fn set(key: u32, value: &[u8]) -> InputChange {
    InputChange { key: KeyId(key), value: value.to_vec() }
}

fn granted(claim: Result<Claim, EngineError>) -> EvaluationHandle {
    match claim {
        Ok(Claim::Granted(handle)) => handle,
        other => panic!("expected a granted claim, got {:?}", other),
    }
}

fn done(value: &[u8], deps: &[u32]) -> NodeState {
    NodeState::Done { value: value.to_vec(), deps: deps.iter().map(|d| KeyId(*d)).collect() }
}

#[test]
fn a_new_graph_is_empty_and_idle() {
    let state = CoreState::new();
    assert_eq!(state.current_version(), VersionNumber(0));
    assert_eq!(state.key_count(), 0);
    assert_eq!(state.running_count(), 0);
    assert!(state.is_idle());
    assert!(!state.is_shut_down());
    assert_eq!(state.read(KeyId(0), VersionNumber(0)), NodeState::Missing);
}

#[test]
fn commit_installs_inputs_at_the_next_version_only() {
    let mut state = graph_with_keys(1);
    let v1 = state.commit(&vec![set(0, &[1])]).unwrap();
    assert_eq!(v1, VersionNumber(1));
    assert_eq!(state.current_version(), VersionNumber(1));
    assert_eq!(state.read(KeyId(0), v1), done(&[1], &[]));
    assert_eq!(state.read(KeyId(0), VersionNumber(0)), NodeState::Missing);
    let v2 = state.commit(&vec![set(0, &[2])]).unwrap();
    assert_eq!(v2, VersionNumber(2));
    assert_eq!(state.read(KeyId(0), v2), done(&[2], &[]));
    assert_eq!(state.read(KeyId(0), v1), done(&[1], &[]));
}

#[test]
fn n_commits_advance_the_version_by_n() {
    let mut state = graph_with_keys(1);
    let mut last = state.current_version();
    for i in 0..5u8 {
        let v = state.commit(&vec![set(0, &[i])]).unwrap();
        assert!(last.precedes(&v));
        last = v;
    }
    assert_eq!(state.current_version(), VersionNumber(5));
    let empty = state.commit(&vec![]).unwrap();
    assert_eq!(empty, VersionNumber(6));
}

#[test]
fn one_caller_is_granted_and_the_next_shares() {
    let mut state = graph_with_keys(2);
    let v1 = state.commit(&vec![set(0, &[1])]).unwrap();
    let handle = granted(state.start_evaluation(KeyId(1), v1));
    assert_eq!(handle.key(), KeyId(1));
    assert_eq!(handle.version(), v1);
    assert_eq!(handle.recheck(), None);
    assert_eq!(state.read(KeyId(1), v1), NodeState::InFlight);
    assert!(state.is_running(KeyId(1), v1));
    assert_eq!(state.start_evaluation(KeyId(1), v1), Ok(Claim::Shared));
    assert_eq!(state.start_evaluation(KeyId(1), v1), Ok(Claim::Shared));
    let woken = state.finish_evaluation(handle, Outcome::Value(vec![10]), vec![KeyId(0)]);
    assert_eq!(woken, Ok(2));
    assert!(!state.is_running(KeyId(1), v1));
    assert_eq!(state.read(KeyId(1), v1), done(&[10], &[0]));
    assert_eq!(state.start_evaluation(KeyId(1), v1), Ok(Claim::Settled(done(&[10], &[0]))));
    assert_eq!(state.running_count(), 0);
}

#[test]
fn failures_and_cycles_are_settled_like_values() {
    let mut state = graph_with_keys(2);
    let v0 = state.current_version();
    let h = granted(state.start_evaluation(KeyId(0), v0));
    assert_eq!(state.finish_evaluation(h, Outcome::Failed(vec![9, 9]), vec![]), Ok(0));
    assert_eq!(state.read(KeyId(0), v0), NodeState::Failed(vec![9, 9]));
    assert_eq!(
        state.start_evaluation(KeyId(0), v0),
        Ok(Claim::Settled(NodeState::Failed(vec![9, 9])))
    );
    let h = granted(state.start_evaluation(KeyId(1), v0));
    let cycle = vec![KeyId(1), KeyId(0)];
    assert_eq!(state.finish_evaluation(h, Outcome::Cycle(cycle.clone()), vec![KeyId(0)]), Ok(0));
    assert_eq!(state.read(KeyId(1), v0), NodeState::Cycle(cycle));
}

#[test]
fn a_failure_is_retried_at_the_next_version_once_its_input_changes() {
    let mut state = graph_with_keys(2);
    let v1 = state.commit(&vec![set(0, &[1])]).unwrap();
    let h = granted(state.start_evaluation(KeyId(1), v1));
    assert_eq!(state.finish_evaluation(h, Outcome::Failed(vec![7]), vec![KeyId(0)]), Ok(0));
    let v2 = state.commit(&vec![set(0, &[2])]).unwrap();
    assert_eq!(state.read(KeyId(1), v1), NodeState::Failed(vec![7]));
    assert_eq!(state.read(KeyId(1), v2), NodeState::Missing);
    let h = granted(state.start_evaluation(KeyId(1), v2));
    assert_eq!(h.recheck(), Some(vec![KeyId(0)]));
    assert_eq!(state.finish_evaluation(h, Outcome::Value(vec![3]), vec![KeyId(0)]), Ok(0));
    assert_eq!(state.read(KeyId(1), v2), done(&[3], &[0]));
}

#[test]
fn a_handle_of_no_running_evaluation_is_refused() {
    let mut other = graph_with_keys(1);
    let foreign = granted(other.start_evaluation(KeyId(0), VersionNumber(0)));
    let mut state = graph_with_keys(1);
    assert_eq!(state.revalidate(&foreign), Err(EngineError::NotInFlight));
    assert_eq!(
        state.finish_evaluation(foreign, Outcome::Value(vec![1]), vec![]),
        Err(EngineError::NotInFlight)
    );
    assert_eq!(state.read(KeyId(0), VersionNumber(0)), NodeState::Missing);
}

#[test]
fn commit_dirties_dependents_and_keeps_the_rest() {
    // key 0 is an input, key 1 reads key 0, key 2 reads key 1, key 3 reads nothing
    let mut state = graph_with_keys(4);
    let v1 = state.commit(&vec![set(0, &[1])]).unwrap();
    let h = granted(state.start_evaluation(KeyId(1), v1));
    state.finish_evaluation(h, Outcome::Value(vec![11]), vec![KeyId(0)]).unwrap();
    let h = granted(state.start_evaluation(KeyId(2), v1));
    state.finish_evaluation(h, Outcome::Value(vec![12]), vec![KeyId(1)]).unwrap();
    let h = granted(state.start_evaluation(KeyId(3), v1));
    state.finish_evaluation(h, Outcome::Value(vec![13]), vec![]).unwrap();

    let v2 = state.commit(&vec![set(0, &[2])]).unwrap();
    assert_eq!(state.read(KeyId(0), v2), done(&[2], &[]));
    assert_eq!(state.read(KeyId(1), v2), NodeState::Missing);
    assert_eq!(state.read(KeyId(2), v2), NodeState::Missing);
    assert_eq!(state.read(KeyId(3), v2), done(&[13], &[]));
    assert_eq!(state.start_evaluation(KeyId(3), v2), Ok(Claim::Settled(done(&[13], &[]))));
    // the past is untouched
    assert_eq!(state.read(KeyId(0), v1), done(&[1], &[]));
    assert_eq!(state.read(KeyId(1), v1), done(&[11], &[0]));
    assert_eq!(state.read(KeyId(2), v1), done(&[12], &[1]));
}

#[test]
fn setting_an_input_to_the_value_it_has_dirties_nothing() {
    let mut state = graph_with_keys(2);
    let v1 = state.commit(&vec![set(0, &[1])]).unwrap();
    let h = granted(state.start_evaluation(KeyId(1), v1));
    state.finish_evaluation(h, Outcome::Value(vec![11]), vec![KeyId(0)]).unwrap();
    let v2 = state.commit(&vec![set(0, &[1])]).unwrap();
    assert_eq!(v2, VersionNumber(2));
    assert_eq!(state.read(KeyId(0), v2), done(&[1], &[]));
    assert_eq!(state.read(KeyId(1), v2), done(&[11], &[0]));
}

#[test]
fn early_cutoff_extends_a_record_whose_dependencies_did_not_change() {
    // key 0 is an input, key 1 reads key 0, key 2 reads key 1
    let mut state = graph_with_keys(3);
    let v1 = state.commit(&vec![set(0, &[1])]).unwrap();
    let h = granted(state.start_evaluation(KeyId(1), v1));
    state.finish_evaluation(h, Outcome::Value(vec![5]), vec![KeyId(0)]).unwrap();
    let h = granted(state.start_evaluation(KeyId(2), v1));
    state.finish_evaluation(h, Outcome::Value(vec![6]), vec![KeyId(1)]).unwrap();

    let v2 = state.commit(&vec![set(0, &[2])]).unwrap();
    // key 1 must be computed anew: its dependency changed
    let h1 = granted(state.start_evaluation(KeyId(1), v2));
    assert_eq!(h1.recheck(), Some(vec![KeyId(0)]));
    assert_eq!(state.revalidate(&h1), Ok(None));
    assert!(state.is_running(KeyId(1), v2));
    // the body gives the value it gave before
    state.finish_evaluation(h1, Outcome::Value(vec![5]), vec![KeyId(0)]).unwrap();
    assert_eq!(state.read(KeyId(1), v2), done(&[5], &[0]));
    // so key 2 is confirmed without a run of its body
    let h2 = granted(state.start_evaluation(KeyId(2), v2));
    assert_eq!(h2.recheck(), Some(vec![KeyId(1)]));
    assert_eq!(state.revalidate(&h2), Ok(Some(0)));
    assert!(!state.is_running(KeyId(2), v2));
    assert_eq!(state.read(KeyId(2), v2), done(&[6], &[1]));
}

#[test]
fn a_changed_value_refutes_the_dependents() {
    let mut state = graph_with_keys(3);
    let v1 = state.commit(&vec![set(0, &[1])]).unwrap();
    let h = granted(state.start_evaluation(KeyId(1), v1));
    state.finish_evaluation(h, Outcome::Value(vec![5]), vec![KeyId(0)]).unwrap();
    let h = granted(state.start_evaluation(KeyId(2), v1));
    state.finish_evaluation(h, Outcome::Value(vec![6]), vec![KeyId(1)]).unwrap();
    let v2 = state.commit(&vec![set(0, &[2])]).unwrap();
    let h1 = granted(state.start_evaluation(KeyId(1), v2));
    state.finish_evaluation(h1, Outcome::Value(vec![50]), vec![KeyId(0)]).unwrap();
    let h2 = granted(state.start_evaluation(KeyId(2), v2));
    assert_eq!(state.revalidate(&h2), Ok(None));
    // an unsettled dependency refutes as well
    let mut fresh = graph_with_keys(2);
    let w1 = fresh.commit(&vec![]).unwrap();
    let h = granted(fresh.start_evaluation(KeyId(1), VersionNumber(0)));
    fresh.finish_evaluation(h, Outcome::Value(vec![1]), vec![KeyId(0)]).unwrap();
    let h = granted(fresh.start_evaluation(KeyId(1), w1));
    assert_eq!(fresh.revalidate(&h), Ok(None));
}

#[test]
fn conflicting_sets_fail_the_commit_and_consume_no_version() {
    let mut state = graph_with_keys(2);
    let r = state.commit(&vec![set(0, &[1]), set(1, &[5]), set(0, &[2])]);
    assert_eq!(r, Err(EngineError::CommitConflict(KeyId(0))));
    assert_eq!(state.current_version(), VersionNumber(0));
    assert_eq!(state.read(KeyId(1), VersionNumber(0)), NodeState::Missing);
    // the same value twice is no conflict
    let v = state.commit(&vec![set(0, &[1]), set(0, &[1])]).unwrap();
    assert_eq!(v, VersionNumber(1));
    assert_eq!(state.read(KeyId(0), v), done(&[1], &[]));
}

#[test]
fn the_first_conflict_is_the_one_reported() {
    let mut state = graph_with_keys(3);
    let r = state.commit(&vec![set(2, &[1]), set(1, &[1]), set(1, &[2]), set(2, &[2])]);
    assert_eq!(r, Err(EngineError::CommitConflict(KeyId(1))));
}

#[test]
fn after_shutdown_nothing_is_committed_or_claimed() {
    let mut state = graph_with_keys(1);
    state.shut_down();
    assert!(state.is_shut_down());
    assert_eq!(state.commit(&vec![set(0, &[1])]), Err(EngineError::Shutdown));
    assert_eq!(state.start_evaluation(KeyId(0), VersionNumber(0)), Err(EngineError::Shutdown));
    assert_eq!(state.current_version(), VersionNumber(0));
    assert_eq!(state.running_count(), 0);
}

#[test]
fn active_versions_are_counted() {
    let mut state = CoreState::new();
    assert!(state.is_idle());
    state.mark_active(VersionNumber(0));
    state.mark_active(VersionNumber(0));
    state.mark_active(VersionNumber(3));
    assert_eq!(state.active_count(), 3);
    assert!(!state.is_idle());
    assert!(!state.release_active(VersionNumber(1)));
    assert!(state.release_active(VersionNumber(0)));
    assert!(state.release_active(VersionNumber(3)));
    assert!(!state.release_active(VersionNumber(3)));
    assert!(!state.is_idle());
    assert!(state.release_active(VersionNumber(0)));
    assert!(state.is_idle());
    assert!(!state.release_active(VersionNumber(0)));
}

#[test]
fn an_old_version_can_still_be_evaluated() {
    let mut state = graph_with_keys(2);
    let v1 = state.commit(&vec![set(0, &[1])]).unwrap();
    let v2 = state.commit(&vec![set(0, &[2])]).unwrap();
    let h = granted(state.start_evaluation(KeyId(1), v1));
    state.finish_evaluation(h, Outcome::Value(vec![1]), vec![KeyId(0)]).unwrap();
    assert_eq!(state.read(KeyId(1), v1), done(&[1], &[0]));
    assert_eq!(state.read(KeyId(1), v2), NodeState::Missing);
    let h = granted(state.start_evaluation(KeyId(1), v2));
    // the record of version 1 rests on key 0, which changed at version 2
    assert_eq!(state.revalidate(&h), Ok(None));
    state.finish_evaluation(h, Outcome::Value(vec![2]), vec![KeyId(0)]).unwrap();
    assert_eq!(state.read(KeyId(1), v1), done(&[1], &[0]));
    assert_eq!(state.read(KeyId(1), v2), done(&[2], &[0]));
}

#[test]
fn an_unshared_evaluation_can_be_cancelled() {
    let mut state = graph_with_keys(1);
    let v0 = state.current_version();
    let h = granted(state.start_evaluation(KeyId(0), v0));
    assert_eq!(state.cancel_evaluation(h), Ok(None));
    assert!(!state.is_running(KeyId(0), v0));
    assert_eq!(state.read(KeyId(0), v0), NodeState::Missing);
    // the key can be claimed anew
    let h = granted(state.start_evaluation(KeyId(0), v0));
    assert_eq!(state.finish_evaluation(h, Outcome::Value(vec![1]), vec![]), Ok(0));
}

#[test]
fn a_shared_evaluation_goes_on_until_the_waiters_are_gone() {
    let mut state = graph_with_keys(1);
    let v0 = state.current_version();
    let h = granted(state.start_evaluation(KeyId(0), v0));
    assert_eq!(state.start_evaluation(KeyId(0), v0), Ok(Claim::Shared));
    let h = match state.cancel_evaluation(h) {
        Ok(Some(handle)) => handle,
        other => panic!("expected the handle back, got {:?}", other),
    };
    assert!(state.is_running(KeyId(0), v0));
    assert!(state.withdraw(KeyId(0), v0));
    assert!(!state.withdraw(KeyId(0), v0));
    assert_eq!(state.cancel_evaluation(h), Ok(None));
    assert!(!state.withdraw(KeyId(0), v0));
    assert_eq!(state.running_count(), 0);
}

#[test]
fn cancelling_what_does_not_run_is_refused() {
    let mut other = graph_with_keys(1);
    let foreign = granted(other.start_evaluation(KeyId(0), VersionNumber(0)));
    let mut state = graph_with_keys(1);
    assert_eq!(state.cancel_evaluation(foreign), Err(EngineError::NotInFlight));
}

#[test]
fn reclamation_drops_what_no_version_in_use_can_see() {
    let mut state = graph_with_keys(2);
    let v1 = state.commit(&vec![set(0, &[1]), set(1, &[1])]).unwrap();
    let v2 = state.commit(&vec![set(0, &[2])]).unwrap();
    let v3 = state.commit(&vec![set(0, &[3])]).unwrap();
    state.mark_active(v2);
    state.reclaim();
    // version 1 is neither current nor in use
    assert_eq!(state.read(KeyId(0), v1), NodeState::Missing);
    assert_eq!(state.read(KeyId(0), v2), done(&[2], &[]));
    assert_eq!(state.read(KeyId(0), v3), done(&[3], &[]));
    // the one record of key 1 spans all three versions and stays
    assert_eq!(state.read(KeyId(1), v1), done(&[1], &[]));
    assert_eq!(state.read(KeyId(1), v3), done(&[1], &[]));
    assert!(state.release_active(v2));
    state.reclaim();
    assert_eq!(state.read(KeyId(0), v2), NodeState::Missing);
    assert_eq!(state.read(KeyId(0), v3), done(&[3], &[]));
}

#[test]
fn reclamation_keeps_the_record_that_early_cutoff_starts_from() {
    // key 0 is an input, key 1 is another, key 2 reads key 1
    let mut state = graph_with_keys(3);
    let v1 = state.commit(&vec![set(0, &[1]), set(1, &[1])]).unwrap();
    let h = granted(state.start_evaluation(KeyId(2), v1));
    state.finish_evaluation(h, Outcome::Value(vec![9]), vec![KeyId(1)]).unwrap();
    let v2 = state.commit(&vec![set(1, &[2])]).unwrap();
    let h1 = granted(state.start_evaluation(KeyId(2), v2));
    state.cancel_evaluation(h1).unwrap();
    state.reclaim();
    // the dirty record of key 2 is its latest and is still there to be rechecked
    assert_eq!(state.read(KeyId(2), v2), NodeState::Missing);
    let h = granted(state.start_evaluation(KeyId(2), v2));
    assert_eq!(h.recheck(), Some(vec![KeyId(1)]));
    assert_eq!(state.read(KeyId(1), v1), NodeState::Missing);
}

#[test]
fn the_last_version_cannot_be_followed() {
    let mut state = CoreState::starting_at(VersionNumber(u64::MAX - 1));
    state.add_key();
    assert_eq!(state.current_version(), VersionNumber(u64::MAX - 1));
    assert_eq!(state.commit(&vec![set(0, &[1])]), Ok(VersionNumber(u64::MAX)));
    assert_eq!(state.commit(&vec![set(0, &[2])]), Err(EngineError::VersionsExhausted));
    assert_eq!(state.current_version(), VersionNumber(u64::MAX));
    assert_eq!(state.read(KeyId(0), VersionNumber(u64::MAX)), done(&[1], &[]));
}

#[test]
fn nothing_is_claimed_at_a_version_that_was_never_installed() {
    let mut state = graph_with_keys(1);
    let refused = state.start_evaluation(KeyId(0), VersionNumber(1));
    assert_eq!(refused, Err(EngineError::UnknownVersion));
    assert_eq!(state.running_count(), 0);
    assert!(state.knows_key(KeyId(0)));
    assert!(!state.knows_key(KeyId(1)));
    assert!(state.knows_all(&vec![KeyId(0), KeyId(0)]));
    assert!(!state.knows_all(&vec![KeyId(0), KeyId(1)]));
    assert!(state.knows_changes(&vec![set(0, &[1])]));
    assert!(!state.knows_changes(&vec![set(0, &[1]), set(7, &[1])]));
}

#[test]
fn a_settled_state_answers_the_caller() {
    assert_eq!(done(&[1, 2], &[3]).into_answer(), Some(Ok(vec![1, 2])));
    assert_eq!(
        NodeState::Failed(vec![9]).into_answer(),
        Some(Err(EngineError::Evaluation(vec![9])))
    );
    assert_eq!(
        NodeState::Cycle(vec![KeyId(1), KeyId(2)]).into_answer(),
        Some(Err(EngineError::Cycle(vec![KeyId(1), KeyId(2)])))
    );
    assert_eq!(NodeState::Missing.into_answer(), None);
    assert_eq!(NodeState::InFlight.into_answer(), None);
}
