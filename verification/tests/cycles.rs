use dice::cycles::{DetectCycles, EvaluationChain};
use dice::error::EngineError;
use dice::key::KeyId;

#[test]
fn a_chain_records_each_dependency_once() {
    let mut chain = EvaluationChain::new(DetectCycles::Enabled);
    assert_eq!(chain.depth(), 0);
    assert_eq!(chain.innermost(), None);
    chain.record(KeyId(9));
    assert_eq!(chain.depth(), 0);
    assert_eq!(chain.enter(KeyId(0)), Ok(()));
    chain.record(KeyId(1));
    chain.record(KeyId(2));
    chain.record(KeyId(1));
    assert_eq!(chain.innermost(), Some(KeyId(0)));
    assert_eq!(chain.leave(), Some((KeyId(0), vec![KeyId(1), KeyId(2)])));
    assert_eq!(chain.leave(), None);
}

#[test]
fn dependencies_belong_to_the_innermost_evaluation() {
    let mut chain = EvaluationChain::new(DetectCycles::Enabled);
    chain.enter(KeyId(0)).unwrap();
    chain.record(KeyId(1));
    chain.enter(KeyId(1)).unwrap();
    chain.record(KeyId(2));
    assert_eq!(chain.depth(), 2);
    assert!(chain.holds(KeyId(0)));
    assert!(!chain.holds(KeyId(2)));
    assert_eq!(chain.leave(), Some((KeyId(1), vec![KeyId(2)])));
    chain.record(KeyId(3));
    assert_eq!(chain.leave(), Some((KeyId(0), vec![KeyId(1), KeyId(3)])));
}

#[test]
fn a_key_that_reads_itself_is_a_cycle_of_one() {
    let mut chain = EvaluationChain::new(DetectCycles::Enabled);
    chain.enter(KeyId(4)).unwrap();
    assert_eq!(chain.enter(KeyId(4)), Err(EngineError::Cycle(vec![KeyId(4)])));
    assert_eq!(chain.depth(), 1);
}

#[test]
fn a_cycle_through_two_keys_holds_both() {
    let mut chain = EvaluationChain::new(DetectCycles::Enabled);
    chain.enter(KeyId(0)).unwrap();
    chain.enter(KeyId(1)).unwrap();
    assert_eq!(chain.enter(KeyId(0)), Err(EngineError::Cycle(vec![KeyId(0), KeyId(1)])));
}

#[test]
fn a_cycle_starts_at_the_key_that_was_asked_for_twice() {
    let mut chain = EvaluationChain::new(DetectCycles::Enabled);
    for k in 0..5u32 {
        chain.enter(KeyId(k)).unwrap();
    }
    assert_eq!(
        chain.enter(KeyId(2)),
        Err(EngineError::Cycle(vec![KeyId(2), KeyId(3), KeyId(4)]))
    );
    assert_eq!(chain.depth(), 5);
}

#[test]
fn a_chain_that_does_not_look_for_cycles_finds_none() {
    let mut chain = EvaluationChain::new(DetectCycles::Disabled);
    assert_eq!(chain.detect(), DetectCycles::Disabled);
    chain.enter(KeyId(0)).unwrap();
    assert_eq!(chain.enter(KeyId(0)), Ok(()));
    assert_eq!(chain.depth(), 2);
}

#[test]
fn independent_chains_may_evaluate_the_same_key() {
    let mut one = EvaluationChain::new(DetectCycles::Enabled);
    let mut two = EvaluationChain::new(DetectCycles::Enabled);
    assert_eq!(one.enter(KeyId(0)), Ok(()));
    assert_eq!(two.enter(KeyId(0)), Ok(()));
}

#[test]
fn a_chain_fits_an_engine_that_knows_all_its_keys() {
    let mut chain = EvaluationChain::new(DetectCycles::Enabled);
    assert!(chain.fits(0));
    chain.enter(KeyId(2)).unwrap();
    chain.record(KeyId(5));
    assert!(!chain.fits(2));
    assert!(!chain.fits(5));
    assert!(chain.fits(6));
}
