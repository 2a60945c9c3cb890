use dice::cycles::DetectCycles;
use dice::data::{DiceData, UserComputationData};
use dice::dice::{DiceModern, DiceModernDataBuilder, Step};
use dice::error::EngineError;
use dice::key::{Key, KeyId};
use dice::node::Outcome;
use dice::state::{EvaluationHandle, NodeState};
use dice::version::VersionNumber;

fn key(name: &str) -> Key {
    Key::new(0, name.as_bytes().to_vec())
}

fn evaluate(step: Result<Step, EngineError>) -> EvaluationHandle {
    match step {
        Ok(Step::Evaluate(handle)) => handle,
        other => panic!("expected the right to evaluate, got {:?}", other),
    }
}

fn value(bytes: &[u8], deps: &[KeyId]) -> NodeState {
    NodeState::Done { value: bytes.to_vec(), deps: deps.to_vec() }
}

#[test]
fn a_built_engine_starts_at_version_zero() {
    let mut builder = DiceModernDataBuilder::new();
    builder.set(7, vec![1, 2]);
    builder.set(7, vec![3]);
    builder.set(8, vec![]);
    let dice = builder.build(DetectCycles::Disabled);
    assert_eq!(*dice.detect_cycles(), DetectCycles::Disabled);
    assert_eq!(dice.current_version(), VersionNumber(0));
    assert!(dice.is_idle());
    assert_eq!(dice.global_data().get(7), Some(vec![1, 2]));
    assert_eq!(dice.global_data().get(8), Some(vec![]));
    assert_eq!(dice.global_data().get(9), None);
    assert_eq!(dice.key_index().len(), 0);
}

#[test]
fn a_new_engine_looks_for_cycles() {
    let dice = DiceModern::new(DiceData::new());
    assert_eq!(*dice.detect_cycles(), DetectCycles::Enabled);
    assert_eq!(dice.new_chain().detect(), DetectCycles::Enabled);
}

#[test]
fn interning_is_stable() {
    let mut dice = DiceModern::new(DiceData::new());
    let a = dice.intern(key("a")).unwrap();
    let b = dice.intern(key("b")).unwrap();
    assert_eq!(dice.intern(key("a")), Ok(a));
    assert_eq!(dice.intern(Key::new(1, b"a".to_vec())), Ok(KeyId(2)));
    assert_ne!(a, b);
    assert_eq!(dice.lookup(a), Some(&key("a")));
    assert_eq!(dice.lookup(b), Some(&key("b")));
    assert_eq!(dice.lookup(KeyId(3)), None);
    assert_eq!(dice.state_handle().key_count(), 3);
}

#[test]
fn a_transaction_commits_exactly_one_version() {
    let mut dice = DiceModern::new(DiceData::new());
    let mut tx = dice.updater();
    assert_eq!(tx.base_version(), VersionNumber(0));
    assert!(!dice.is_idle());
    assert!(tx.set_input(key("x"), vec![1]));
    assert!(tx.set_input(key("y"), vec![2]));
    assert_eq!(tx.staged_len(), 2);
    // nothing is visible before the commit
    assert_eq!(dice.key_index().len(), 0);
    assert_eq!(dice.current_version(), VersionNumber(0));
    assert_eq!(tx.commit(&mut dice), Ok(VersionNumber(1)));
    assert!(tx.is_committed());
    assert!(dice.is_idle());
    assert_eq!(dice.current_version(), VersionNumber(1));
    let x = dice.intern(key("x")).unwrap();
    let y = dice.intern(key("y")).unwrap();
    assert_eq!((x, y), (KeyId(0), KeyId(1)));
    assert_eq!(dice.read(x, VersionNumber(1)), value(&[1], &[]));
    assert_eq!(dice.read(y, VersionNumber(1)), value(&[2], &[]));
    assert_eq!(dice.read(x, VersionNumber(0)), NodeState::Missing);
}

#[test]
fn a_transaction_commits_only_once() {
    let mut dice = DiceModern::new(DiceData::new());
    let mut tx = dice.updater();
    tx.set_input(key("x"), vec![1]);
    assert_eq!(tx.commit(&mut dice), Ok(VersionNumber(1)));
    assert_eq!(tx.commit(&mut dice), Err(EngineError::AlreadyCommitted));
    assert!(!tx.set_input(key("x"), vec![2]));
    assert_eq!(tx.staged_len(), 1);
    assert_eq!(dice.current_version(), VersionNumber(1));
}

#[test]
fn versions_follow_the_order_of_commits() {
    let mut dice = DiceModern::new(DiceData::new());
    let mut first = dice.updater();
    let mut second = dice.updater();
    first.set_input(key("x"), vec![1]);
    second.set_input(key("x"), vec![2]);
    // the transaction that was opened later commits first
    assert_eq!(second.commit(&mut dice), Ok(VersionNumber(1)));
    assert!(!dice.is_idle());
    assert_eq!(first.commit(&mut dice), Ok(VersionNumber(2)));
    assert!(dice.is_idle());
    let x = dice.intern(key("x")).unwrap();
    assert_eq!(dice.read(x, VersionNumber(1)), value(&[2], &[]));
    assert_eq!(dice.read(x, VersionNumber(2)), value(&[1], &[]));
    for n in 3..10u64 {
        let mut tx = dice.updater();
        assert_eq!(tx.commit(&mut dice), Ok(VersionNumber(n)));
    }
    assert_eq!(dice.current_version(), VersionNumber(9));
}

#[test]
fn duplicate_sets_of_one_value_commit_and_of_two_values_conflict() {
    let mut dice = DiceModern::new(DiceData::new());
    let mut same = dice.updater();
    same.set_input(key("x"), vec![1]);
    same.set_input(key("x"), vec![1]);
    assert_eq!(same.commit(&mut dice), Ok(VersionNumber(1)));

    let mut clash = dice.updater();
    clash.set_input(key("y"), vec![1]);
    clash.set_input(key("x"), vec![5]);
    clash.set_input(key("y"), vec![2]);
    assert_eq!(clash.commit(&mut dice), Err(EngineError::CommitConflict(KeyId(1))));
    assert!(!clash.is_committed());
    assert_eq!(dice.current_version(), VersionNumber(1));
    // the refused transaction is still open, until it is given up
    assert!(!dice.is_idle());
    clash.discard(&mut dice);
    assert!(dice.is_idle());
    assert_eq!(dice.read(KeyId(0), VersionNumber(1)), value(&[1], &[]));
    assert_eq!(dice.read(KeyId(1), VersionNumber(1)), NodeState::Missing);
}

#[test]
fn a_value_is_computed_once_and_kept_over_an_unrelated_commit() {
    let mut dice = DiceModern::new(DiceData::new());
    let mut tx = dice.updater();
    tx.set_input(key("x"), vec![4]);
    tx.set_input(key("other"), vec![0]);
    let v1 = tx.commit(&mut dice).unwrap();
    let x = dice.intern(key("x")).unwrap();
    let double = dice.intern(key("double")).unwrap();

    let mut runs = 0;
    let mut chain = dice.new_chain();
    // first read: the body runs
    let handle = evaluate(dice.request(&mut chain, double, v1));
    runs += 1;
    assert_eq!(dice.request(&mut chain, x, v1), Ok(Step::Ready(value(&[4], &[]))));
    assert_eq!(dice.complete(&mut chain, handle, Outcome::Value(vec![8])), Ok(0));
    // second read at the same version: no body
    assert_eq!(dice.request(&mut chain, double, v1), Ok(Step::Ready(value(&[8], &[x]))));
    // an unrelated commit
    let mut tx = dice.updater();
    tx.set_input(key("other"), vec![1]);
    let v2 = tx.commit(&mut dice).unwrap();
    // third read at the new version: still no body
    assert_eq!(dice.request(&mut chain, double, v2), Ok(Step::Ready(value(&[8], &[x]))));
    assert_eq!(runs, 1);
    assert_eq!(chain.depth(), 0);
}

#[test]
fn a_changed_input_is_seen_at_the_new_version_and_not_at_the_old() {
    let mut dice = DiceModern::new(DiceData::new());
    let mut tx = dice.updater();
    tx.set_input(key("x"), vec![1]);
    let v1 = tx.commit(&mut dice).unwrap();
    let x = dice.intern(key("x")).unwrap();
    let copy = dice.intern(key("copy")).unwrap();
    let mut chain = dice.new_chain();

    let handle = evaluate(dice.request(&mut chain, copy, v1));
    let read = dice.request(&mut chain, x, v1).unwrap();
    assert_eq!(read, Step::Ready(value(&[1], &[])));
    dice.complete(&mut chain, handle, Outcome::Value(vec![1])).unwrap();

    let mut tx = dice.updater();
    tx.set_input(key("x"), vec![2]);
    let v2 = tx.commit(&mut dice).unwrap();

    let handle = evaluate(dice.request(&mut chain, copy, v2));
    assert_eq!(handle.recheck(), Some(vec![x]));
    assert_eq!(dice.request(&mut chain, x, v2), Ok(Step::Ready(value(&[2], &[]))));
    assert_eq!(dice.confirm(&mut chain, &handle), Ok(None));
    dice.complete(&mut chain, handle, Outcome::Value(vec![2])).unwrap();

    assert_eq!(dice.read(copy, v2), value(&[2], &[x]));
    assert_eq!(dice.read(copy, v1), value(&[1], &[x]));
    assert_eq!(dice.read(x, v1), value(&[1], &[]));
}

#[test]
fn a_key_that_reads_itself_fails_with_a_cycle() {
    let mut dice = DiceModern::new(DiceData::new());
    let a = dice.intern(key("a")).unwrap();
    let v0 = dice.current_version();
    let mut chain = dice.new_chain();
    let handle = evaluate(dice.request(&mut chain, a, v0));
    let again = dice.request(&mut chain, a, v0);
    assert_eq!(again, Err(EngineError::Cycle(vec![a])));
    assert_eq!(dice.complete(&mut chain, handle, Outcome::Cycle(vec![a])), Ok(0));
    assert_eq!(dice.read(a, v0), NodeState::Cycle(vec![a]));
    assert_eq!(chain.depth(), 0);
}

#[test]
fn a_cycle_through_two_keys_is_reported_with_both() {
    let mut dice = DiceModern::new(DiceData::new());
    let a = dice.intern(key("a")).unwrap();
    let b = dice.intern(key("b")).unwrap();
    let v0 = dice.current_version();
    let mut chain = dice.new_chain();
    let run_a = evaluate(dice.request(&mut chain, a, v0));
    let run_b = evaluate(dice.request(&mut chain, b, v0));
    let cycle = match dice.request(&mut chain, a, v0) {
        Err(EngineError::Cycle(keys)) => keys,
        other => panic!("expected a cycle, got {:?}", other),
    };
    assert_eq!(cycle, vec![a, b]);
    assert!(cycle.contains(&a) && cycle.contains(&b));
    // the failure travels outwards and is cached for both keys
    assert_eq!(dice.complete(&mut chain, run_b, Outcome::Cycle(cycle.clone())), Ok(0));
    assert_eq!(dice.complete(&mut chain, run_a, Outcome::Cycle(cycle.clone())), Ok(0));
    assert_eq!(dice.read(a, v0), NodeState::Cycle(cycle.clone()));
    assert_eq!(dice.read(b, v0), NodeState::Cycle(cycle));
    assert_eq!(dice.state_handle().running_count(), 0);
}

#[test]
fn two_callers_share_one_evaluation() {
    let mut dice = DiceModern::new(DiceData::new());
    let k = dice.intern(key("k")).unwrap();
    let v0 = dice.current_version();
    let mut first = dice.new_chain();
    let mut second = dice.new_chain();
    let handle = evaluate(dice.request(&mut first, k, v0));
    assert_eq!(dice.request(&mut second, k, v0), Ok(Step::Await));
    assert_eq!(second.depth(), 0);
    assert_eq!(dice.complete(&mut first, handle, Outcome::Value(vec![42])), Ok(1));
    let one = dice.request(&mut first, k, v0);
    let two = dice.request(&mut second, k, v0);
    assert_eq!(one, Ok(Step::Ready(value(&[42], &[]))));
    assert_eq!(one, two);
}

#[test]
fn only_the_innermost_running_evaluation_completes() {
    let mut dice = DiceModern::new(DiceData::new());
    let a = dice.intern(key("a")).unwrap();
    let b = dice.intern(key("b")).unwrap();
    let v0 = dice.current_version();
    let mut chain = dice.new_chain();
    let run_a = evaluate(dice.request(&mut chain, a, v0));
    let run_b = evaluate(dice.request(&mut chain, b, v0));
    assert_eq!(dice.confirm(&mut chain, &run_a), Err(EngineError::NotInFlight));
    assert_eq!(
        dice.complete(&mut chain, run_a, Outcome::Value(vec![1])),
        Err(EngineError::NotInFlight)
    );
    assert_eq!(chain.depth(), 2);
    assert_eq!(dice.complete(&mut chain, run_b, Outcome::Value(vec![2])), Ok(0));
    assert_eq!(chain.innermost(), Some(a));
}

#[test]
fn an_evaluation_failure_is_cached_for_its_version() {
    let mut dice = DiceModern::new(DiceData::new());
    let k = dice.intern(key("k")).unwrap();
    let v0 = dice.current_version();
    let mut chain = dice.new_chain();
    let handle = evaluate(dice.request(&mut chain, k, v0));
    dice.complete(&mut chain, handle, Outcome::Failed(b"boom".to_vec())).unwrap();
    assert_eq!(
        dice.request(&mut chain, k, v0),
        Ok(Step::Ready(NodeState::Failed(b"boom".to_vec())))
    );
}

#[test]
fn the_engine_is_idle_until_a_version_is_held() {
    let mut dice = DiceModern::new(DiceData::new());
    assert!(dice.is_idle());
    let k = dice.intern(key("k")).unwrap();
    let mut chain = dice.new_chain();
    let handle = evaluate(dice.request(&mut chain, k, VersionNumber(0)));
    dice.complete(&mut chain, handle, Outcome::Value(vec![1])).unwrap();
    assert!(dice.is_idle());
    assert!(!dice.release(VersionNumber(0)));
    assert!(dice.is_idle());
    dice.hold(VersionNumber(0));
    assert!(!dice.is_idle());
    let tx = dice.updater_with_data(UserComputationData::new());
    assert!(dice.release(VersionNumber(0)));
    assert!(!dice.is_idle());
    tx.discard(&mut dice);
    assert!(dice.is_idle());
}

#[test]
fn user_data_travels_with_the_transaction() {
    let mut dice = DiceModern::new(DiceData::new());
    let mut extra = UserComputationData::new();
    assert!(extra.data.set(1, vec![9]));
    let tx = dice.updater_with_data(extra);
    assert_eq!(tx.user_data().data.get(1), Some(vec![9]));
    assert_eq!(tx.user_data().data.get(2), None);
    let plain = dice.updater();
    assert_eq!(plain.user_data().data.len(), 0);
}

#[test]
fn nothing_is_evaluated_at_a_version_that_was_never_installed() {
    let mut dice = DiceModern::new(DiceData::new());
    let k = dice.intern(key("k")).unwrap();
    let mut chain = dice.new_chain();
    assert_eq!(dice.request(&mut chain, k, VersionNumber(1)), Err(EngineError::UnknownVersion));
    assert_eq!(chain.depth(), 0);
    assert_eq!(dice.state_handle().running_count(), 0);
    assert!(dice.admits(&chain, k));
    assert!(!dice.admits(&chain, KeyId(1)));
}

#[test]
fn an_engine_in_teardown_refuses_work() {
    let mut dice = DiceModern::new(DiceData::new());
    let k = dice.intern(key("k")).unwrap();
    let mut tx = dice.updater();
    tx.set_input(key("fresh"), vec![1]);
    dice.shut_down();
    assert_eq!(tx.commit(&mut dice), Err(EngineError::Shutdown));
    assert_eq!(dice.key_index().len(), 1);
    let mut chain = dice.new_chain();
    assert_eq!(dice.request(&mut chain, k, VersionNumber(0)), Err(EngineError::Shutdown));
    assert_eq!(dice.current_version(), VersionNumber(0));
}

#[test]
fn the_dump_lists_records_edges_and_running_evaluations() {
    let mut dice = DiceModern::new(DiceData::new());
    let mut tx = dice.updater();
    tx.set_input(key("x"), vec![1]);
    let v1 = tx.commit(&mut dice).unwrap();
    let x = dice.intern(key("x")).unwrap();
    let sum = dice.intern(key("sum")).unwrap();
    let slow = dice.intern(key("slow")).unwrap();
    let mut chain = dice.new_chain();
    let handle = evaluate(dice.request(&mut chain, sum, v1));
    dice.request(&mut chain, x, v1).unwrap();
    dice.complete(&mut chain, handle, Outcome::Failed(vec![0])).unwrap();
    let mut tx = dice.updater();
    tx.set_input(key("unrelated"), vec![1]);
    tx.commit(&mut dice).unwrap();
    let _running = evaluate(dice.request(&mut chain, slow, v1));
    let mut waiter = dice.new_chain();
    assert_eq!(dice.request(&mut waiter, slow, v1), Ok(Step::Await));

    let dump = dice.serialize_tsv();
    assert_eq!(
        String::from_utf8(dump.nodes).unwrap(),
        "0\t0\t78\t1\t2\tvalue\n1\t0\t73756d\t1\t2\tfailed\n3\t0\t756e72656c61746564\t2\t2\tvalue\n"
    );
    assert_eq!(String::from_utf8(dump.edges).unwrap(), "1\t1\t0\n");
    assert_eq!(String::from_utf8(dump.nodes_currently_running).unwrap(), "2\t1\t1\n");
}

#[test]
fn an_abandoned_evaluation_leaves_no_trace() {
    let mut dice = DiceModern::new(DiceData::new());
    let k = dice.intern(key("k")).unwrap();
    let v0 = dice.current_version();
    let mut chain = dice.new_chain();
    let handle = evaluate(dice.request(&mut chain, k, v0));
    assert_eq!(dice.abandon(&mut chain, handle), Ok(None));
    assert_eq!(chain.depth(), 0);
    assert_eq!(dice.read(k, v0), NodeState::Missing);
    assert_eq!(dice.state_handle().running_count(), 0);
}

#[test]
fn a_shared_evaluation_cannot_be_abandoned() {
    let mut dice = DiceModern::new(DiceData::new());
    let k = dice.intern(key("k")).unwrap();
    let v0 = dice.current_version();
    let mut chain = dice.new_chain();
    let mut waiter = dice.new_chain();
    let handle = evaluate(dice.request(&mut chain, k, v0));
    assert_eq!(dice.request(&mut waiter, k, v0), Ok(Step::Await));
    let handle = match dice.abandon(&mut chain, handle) {
        Ok(Some(h)) => h,
        other => panic!("expected the handle back, got {:?}", other),
    };
    assert_eq!(chain.depth(), 1);
    assert_eq!(dice.complete(&mut chain, handle, Outcome::Value(vec![1])), Ok(1));
}

#[test]
fn the_engine_reclaims_old_versions() {
    let mut dice = DiceModern::new(DiceData::new());
    for n in 1..=3u8 {
        let mut tx = dice.updater();
        tx.set_input(key("x"), vec![n]);
        tx.commit(&mut dice).unwrap();
    }
    let x = dice.intern(key("x")).unwrap();
    dice.hold(VersionNumber(1));
    dice.reclaim();
    assert_eq!(dice.read(x, VersionNumber(1)), value(&[1], &[]));
    assert_eq!(dice.read(x, VersionNumber(2)), NodeState::Missing);
    assert_eq!(dice.read(x, VersionNumber(3)), value(&[3], &[]));
}
