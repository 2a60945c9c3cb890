use dice::key::{Key, KeyId};
use dice::key_index::DiceKeyIndex;

#[test]
fn equal_keys_get_the_same_identifier() {
    let mut index = DiceKeyIndex::new();
    let a = index.intern(Key::new(1, vec![1, 2, 3])).unwrap();
    let b = index.intern(Key::new(1, vec![1, 2, 4])).unwrap();
    let again = index.intern(Key::new(1, vec![1, 2, 3])).unwrap();
    assert_eq!(a, KeyId(0));
    assert_eq!(b, KeyId(1));
    assert_eq!(again, a);
    assert_eq!(index.len(), 2);
}

#[test]
fn an_identifier_finds_its_key_again() {
    let mut index = DiceKeyIndex::new();
    let a = index.intern(Key::new(7, vec![])).unwrap();
    let b = index.intern(Key::new(8, vec![])).unwrap();
    assert_eq!(index.lookup(a), Some(&Key::new(7, vec![])));
    assert_eq!(index.lookup(b), Some(&Key::new(8, vec![])));
    assert_eq!(index.lookup(KeyId(2)), None);
    assert_eq!(index.find(&Key::new(8, vec![])), Some(b));
    assert_eq!(index.find(&Key::new(9, vec![])), None);
}

#[test]
fn identifiers_are_given_in_the_order_of_first_sight() {
    let mut index = DiceKeyIndex::new();
    for round in 0..3 {
        for n in 0..10u8 {
            let id = index.intern(Key::new(0, vec![n])).unwrap();
            assert_eq!(id, KeyId(n as u32), "round {}", round);
        }
    }
    assert_eq!(index.len(), 10);
}
