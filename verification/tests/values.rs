use french_press::test_utils::{make_alloc_box, make_num, make_obj, make_str};
use french_press::value::{IDENTITY_FIXED_BITS, IDENTITY_FIXED_MASK};
use french_press::{Payload, PayloadKind, Property, Value, ValueKind, GC_THRESHOLD};
use std::collections::HashSet;
use uuid::Uuid;

#[test]
fn fresh_identities_are_version_four() {
    for _ in 0..64 {
        let v = Value::new(ValueKind::Undefined);
        assert_eq!(v.identity & IDENTITY_FIXED_MASK, IDENTITY_FIXED_BITS);
        let uuid = Uuid::from_u128(v.identity);
        assert_eq!(uuid.get_version_num(), 4);
        assert_eq!(uuid.as_u128(), v.identity);
    }
}

#[test]
fn fresh_identities_differ() {
    let a = Value::new(ValueKind::Null);
    let b = Value::new(ValueKind::Null);
    assert_ne!(a.identity, b.identity);
}

#[test]
fn the_fixed_bits_are_version_and_variant() {
    assert_eq!(IDENTITY_FIXED_MASK, 0xf000_c000_0000_0000_0000u128);
    assert_eq!(IDENTITY_FIXED_BITS, 0x4000_8000_0000_0000_0000u128);
}

#[test]
fn the_default_threshold_is_sixty_four() {
    assert_eq!(GC_THRESHOLD, 64);
}

#[test]
fn with_identity_makes_an_anonymous_value() {
    let v = Value::with_identity(ValueKind::Bool(false), 12);
    assert_eq!(
        v,
        Value { kind: ValueKind::Bool(false), identity: 12, name: None, capture: None }
    );
    assert!(!v.is_pointer());
    assert!(Value::with_identity(ValueKind::Pointer, 12).is_pointer());
}

#[test]
fn make_num_keeps_the_bits() {
    let v = make_num(2.5f64.to_bits());
    match v.kind {
        ValueKind::Number(bits) => assert_eq!(f64::from_bits(bits), 2.5),
        _ => unreachable!(),
    }
    assert!(v.name.is_none());
}

#[test]
fn make_str_makes_a_pointer_and_its_payload() {
    let (v, p) = make_str("hello");
    assert!(v.is_pointer());
    assert_eq!(p, Payload::Str("hello".to_string()));
    assert_eq!(p.kind(), PayloadKind::Str);
    assert!(p.children().is_empty());
}

#[test]
fn make_obj_allocates_the_children_that_come_with_a_payload() {
    let mut heap = make_alloc_box();
    let (s, s_ptr) = make_str("child");
    let n = make_num(1f64.to_bits());
    let bare = Value::with_identity(ValueKind::Pointer, 77);
    let kvs = vec![
        ("a".to_string(), s.clone(), Some(s_ptr.clone())),
        ("b".to_string(), n.clone(), Some(Payload::Function(1))),
        ("c".to_string(), bare.clone(), None),
    ];
    let (obj, obj_ptr) = make_obj(kvs, &mut heap);
    assert!(obj.is_pointer());
    assert_eq!(heap.len(), 1);
    assert_eq!(heap.find_id(s.identity), Some(&s_ptr));
    assert_eq!(
        obj_ptr,
        Payload::Object(vec![
            Property { key: "a".to_string(), value: s.clone() },
            Property { key: "b".to_string(), value: n },
            Property { key: "c".to_string(), value: bare },
        ])
    );
    assert_eq!(obj_ptr.kind(), PayloadKind::Object);
    let expected: HashSet<u128> = [s.identity, 77].into_iter().collect();
    assert_eq!(obj_ptr.children(), expected);
}

#[test]
fn make_alloc_box_is_empty() {
    let heap = make_alloc_box();
    assert!(heap.is_empty());
}

#[test]
fn payload_kinds() {
    assert_eq!(Payload::Symbol("s".to_string()).kind(), PayloadKind::Symbol);
    assert_eq!(Payload::Function(4).kind(), PayloadKind::Function);
    assert!(Payload::Function(4).children().is_empty());
}
