use dice::data::DiceData;

#[test]
fn a_slot_is_set_once() {
    let mut data = DiceData::new();
    assert_eq!(data.len(), 0);
    assert!(!data.has(1));
    assert!(data.set(1, vec![10]));
    assert!(data.set(2, vec![20, 21]));
    assert!(!data.set(1, vec![11]));
    assert_eq!(data.len(), 2);
    assert!(data.has(1));
    assert_eq!(data.get(1), Some(vec![10]));
    assert_eq!(data.get(2), Some(vec![20, 21]));
    assert_eq!(data.get(3), None);
}

#[test]
fn an_empty_value_is_a_value() {
    let mut data = DiceData::new();
    assert!(data.set(u64::MAX, vec![]));
    assert_eq!(data.get(u64::MAX), Some(vec![]));
    assert!(!data.set(u64::MAX, vec![1]));
    assert_eq!(data.get(u64::MAX), Some(vec![]));
}
