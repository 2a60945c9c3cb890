use dice::node::{copy_bytes, copy_ids, same_bytes, same_ids, Outcome};
use dice::key::{Key, KeyId};
use dice::text::{push_decimal, push_hex_bytes};
use dice::version::VersionNumber;

fn decimal(n: u64) -> String {
    let mut out = Vec::new();
    push_decimal(&mut out, n);
    String::from_utf8(out).unwrap()
}

#[test]
fn numbers_are_written_in_decimal() {
    assert_eq!(decimal(0), "0");
    assert_eq!(decimal(7), "7");
    assert_eq!(decimal(10), "10");
    assert_eq!(decimal(1905), "1905");
    assert_eq!(decimal(u64::MAX), "18446744073709551615");
}

#[test]
fn digits_are_appended_to_what_is_there() {
    let mut out = b"n=".to_vec();
    push_decimal(&mut out, 120);
    push_decimal(&mut out, 3);
    assert_eq!(out, b"n=1203".to_vec());
}

#[test]
fn copies_are_equal_to_their_source() {
    assert_eq!(copy_bytes(&vec![1, 2, 3]), vec![1, 2, 3]);
    assert_eq!(copy_bytes(&vec![]), Vec::<u8>::new());
    assert_eq!(copy_ids(&vec![KeyId(4), KeyId(2)]), vec![KeyId(4), KeyId(2)]);
    assert!(same_bytes(&vec![1, 2], &vec![1, 2]));
    assert!(!same_bytes(&vec![1, 2], &vec![1, 3]));
    assert!(!same_bytes(&vec![1, 2], &vec![1]));
    assert!(same_ids(&vec![], &vec![]));
    assert!(!same_ids(&vec![KeyId(1)], &vec![KeyId(2)]));
}

#[test]
fn outcomes_compare_by_kind_and_content() {
    let value = Outcome::Value(vec![1]);
    assert!(value.same_as(&Outcome::Value(vec![1])));
    assert!(!value.same_as(&Outcome::Value(vec![2])));
    assert!(!value.same_as(&Outcome::Failed(vec![1])));
    assert!(Outcome::Cycle(vec![KeyId(0)]).same_as(&Outcome::Cycle(vec![KeyId(0)])));
    assert_eq!(value.duplicate(), value);
}

#[test]
fn keys_compare_by_family_and_payload() {
    let a = Key::new(1, vec![1, 2]);
    assert!(a.same_as(&Key::new(1, vec![1, 2])));
    assert!(!a.same_as(&Key::new(2, vec![1, 2])));
    assert!(!a.same_as(&Key::new(1, vec![1, 2, 3])));
    assert!(!a.same_as(&Key::new(1, vec![1, 3])));
    assert_eq!(a.duplicate(), a);
    assert_eq!(a.family(), 1);
    assert_eq!(a.payload(), &vec![1, 2]);
    assert_eq!(KeyId(5).index(), 5);
}

#[test]
fn versions_count_upwards() {
    let zero = VersionNumber::zero();
    assert_eq!(zero.value(), 0);
    let one = zero.checked_next().unwrap();
    assert_eq!(one, VersionNumber(1));
    assert!(zero.precedes(&one));
    assert!(!one.precedes(&zero));
    assert!(!one.precedes(&one));
    assert_eq!(VersionNumber(u64::MAX).checked_next(), None);
    assert_eq!(VersionNumber(u64::MAX - 1).checked_next(), Some(VersionNumber(u64::MAX)));
}

#[test]
fn bytes_are_written_as_two_hexadecimal_digits_each() {
    let mut out = Vec::new();
    push_hex_bytes(&mut out, &vec![0x00, 0x0f, 0xa0, 0xff, 0x7b]);
    assert_eq!(out, b"000fa0ff7b".to_vec());
    push_hex_bytes(&mut out, &vec![]);
    assert_eq!(out.len(), 10);
}
