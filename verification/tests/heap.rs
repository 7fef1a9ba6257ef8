use french_press::test_utils::make_alloc_box;
use french_press::{AllocBox, Color, GcError, Payload, Property, Value, ValueKind};
use std::collections::HashSet;
use uuid::Uuid;

fn sym(text: &str) -> Payload {
    Payload::Symbol(text.to_string())
}

fn object_with(children: &[u128]) -> Payload {
    let mut props = Vec::new();
    for (i, child) in children.iter().enumerate() {
        props.push(Property {
            key: format!("k{}", i),
            value: Value::with_identity(ValueKind::Pointer, *child),
        });
    }
    Payload::Object(props)
}

fn set_of(ids: &[u128]) -> HashSet<u128> {
    ids.iter().copied().collect()
}

fn collect(heap: &mut AllocBox, roots: &[u128]) {
    heap.mark_roots(&set_of(roots));
    heap.mark_phase();
    heap.sweep_phase();
}

#[test]
fn scope_test_new_scope() {
    let heap = AllocBox::new();
    assert!(heap.is_empty());
    assert_eq!(heap.len(), 0);
}

#[test]
fn scope_test_alloc() {
    let mut heap = AllocBox::new();
    let test_var = Value::new(ValueKind::Pointer);
    let test_id = test_var.identity;
    let id = heap.allocate(test_var.identity, sym("one")).unwrap();
    assert_eq!(test_id, id);
    assert!(heap.is_allocated(id));
    assert_eq!(heap.len(), 1);
    assert_eq!(heap.color_of(id), Some(Color::White));
}

#[test]
fn scope_test_get_var_copy() {
    let mut heap = AllocBox::new();
    let test_var = Value::new(ValueKind::Pointer);
    let id = heap.allocate(test_var.identity, sym("one")).unwrap();
    let bad_id = Uuid::new_v4().as_u128();
    let copy = heap.find_id(id);
    assert!(copy.is_some());
    assert_eq!(copy.unwrap(), &sym("one"));
    let bad_copy = heap.find_id(bad_id);
    assert!(bad_copy.is_none());
}

#[test]
fn test_mark_roots() {
    let mut heap = AllocBox::new();
    heap.mark_roots(&HashSet::new());
    assert!(heap.is_empty());
}

#[test]
fn mod_test_alloc() {
    let mut heap = make_alloc_box();
    let test_var = Value::new(ValueKind::Pointer);
    let test_id = heap.allocate(test_var.identity, Payload::Symbol(String::from("test"))).unwrap();
    assert_eq!(test_id, test_var.identity);
}

#[test]
fn allocate_then_find_gives_the_payload_back() {
    let mut heap = AllocBox::new();
    let payload = object_with(&[4, 5]);
    assert_eq!(heap.allocate(9, payload.clone()), Ok(9));
    assert_eq!(heap.find_id(9), Some(&payload));
    assert_eq!(heap.find_id(4), None);
}

#[test]
fn allocate_refuses_a_taken_identity() {
    let mut heap = AllocBox::new();
    assert_eq!(heap.allocate(1, sym("first")), Ok(1));
    assert_eq!(heap.allocate(1, sym("second")), Err(GcError::DuplicateIdentity));
    assert_eq!(heap.find_id(1), Some(&sym("first")));
    assert_eq!(heap.len(), 1);
}

#[test]
fn update_replaces_a_payload_of_the_same_variant() {
    let mut heap = AllocBox::new();
    heap.allocate(1, sym("before")).unwrap();
    assert_eq!(heap.update_ptr(1, sym("after")), Ok(()));
    assert_eq!(heap.find_id(1), Some(&sym("after")));
    assert_eq!(heap.color_of(1), Some(Color::White));
}

#[test]
fn update_refuses_an_unknown_identity() {
    let mut heap = AllocBox::new();
    assert_eq!(heap.update_ptr(1, sym("x")), Err(GcError::UnknownIdentity));
    assert!(heap.is_empty());
}

#[test]
fn update_refuses_another_variant() {
    let mut heap = AllocBox::new();
    heap.allocate(1, sym("x")).unwrap();
    assert_eq!(
        heap.update_ptr(1, Payload::Str("x".to_string())),
        Err(GcError::PayloadKindMismatch)
    );
    assert_eq!(heap.update_ptr(1, Payload::Function(3)), Err(GcError::PayloadKindMismatch));
    assert_eq!(heap.update_ptr(1, object_with(&[])), Err(GcError::PayloadKindMismatch));
    assert_eq!(heap.find_id(1), Some(&sym("x")));
}

#[test]
fn update_keeps_the_colour() {
    let mut heap = AllocBox::new();
    heap.allocate(1, sym("x")).unwrap();
    heap.mark_roots(&set_of(&[1]));
    assert_eq!(heap.color_of(1), Some(Color::Black));
    heap.update_ptr(1, sym("y")).unwrap();
    assert_eq!(heap.color_of(1), Some(Color::Black));
}

#[test]
fn mark_roots_blackens_roots_and_greys_their_children() {
    let mut heap = AllocBox::new();
    heap.allocate(1, object_with(&[2, 3])).unwrap();
    heap.allocate(2, object_with(&[4])).unwrap();
    heap.allocate(3, sym("leaf")).unwrap();
    heap.allocate(4, sym("deep")).unwrap();
    heap.allocate(5, sym("stray")).unwrap();
    heap.mark_roots(&set_of(&[1]));
    assert_eq!(heap.color_of(1), Some(Color::Black));
    assert_eq!(heap.color_of(2), Some(Color::Grey));
    assert_eq!(heap.color_of(3), Some(Color::Grey));
    assert_eq!(heap.color_of(4), Some(Color::White));
    assert_eq!(heap.color_of(5), Some(Color::White));
}

#[test]
fn mark_roots_goes_by_the_colour_at_each_root_s_turn() {
    let mut heap = AllocBox::new();
    heap.allocate(1, object_with(&[2])).unwrap();
    heap.allocate(2, sym("child")).unwrap();
    heap.mark_roots(&set_of(&[1, 2]));
    assert_eq!(heap.color_of(1), Some(Color::Black));
    // black if its own turn came first, grey if it was found as a child of 1
    assert!(matches!(heap.color_of(2), Some(Color::Black) | Some(Color::Grey)));
    heap.mark_phase();
    assert_eq!(heap.color_of(1), Some(Color::Black));
    assert_eq!(heap.color_of(2), Some(Color::Black));
}

#[test]
fn mark_roots_passes_over_unknown_roots_and_children() {
    let mut heap = AllocBox::new();
    heap.allocate(1, object_with(&[77])).unwrap();
    heap.mark_roots(&set_of(&[99, 1]));
    assert_eq!(heap.color_of(1), Some(Color::Black));
    assert_eq!(heap.color_of(77), None);
    assert_eq!(heap.color_of(99), None);
    assert_eq!(heap.len(), 1);
}

#[test]
fn mark_phase_blackens_what_grey_records_reach() {
    let mut heap = AllocBox::new();
    heap.allocate(1, object_with(&[2])).unwrap();
    heap.allocate(2, object_with(&[3])).unwrap();
    heap.allocate(3, object_with(&[1])).unwrap();
    heap.allocate(4, object_with(&[1])).unwrap();
    heap.mark_roots(&set_of(&[1]));
    heap.mark_phase();
    assert_eq!(heap.color_of(1), Some(Color::Black));
    assert_eq!(heap.color_of(2), Some(Color::Black));
    assert_eq!(heap.color_of(3), Some(Color::Black));
    assert_eq!(heap.color_of(4), Some(Color::White));
}

#[test]
fn mark_phase_without_grey_records_changes_nothing() {
    let mut heap = AllocBox::new();
    heap.allocate(1, object_with(&[2])).unwrap();
    heap.allocate(2, sym("x")).unwrap();
    heap.mark_phase();
    assert_eq!(heap.color_of(1), Some(Color::White));
    assert_eq!(heap.color_of(2), Some(Color::White));
}

#[test]
fn sweep_discards_white_and_resets_the_rest() {
    let mut heap = AllocBox::new();
    heap.allocate(1, object_with(&[2])).unwrap();
    heap.allocate(2, sym("kept")).unwrap();
    heap.allocate(3, sym("lost")).unwrap();
    heap.mark_roots(&set_of(&[1]));
    // 2 is still grey: a sweep keeps it, as it keeps the black root
    heap.sweep_phase();
    assert_eq!(heap.len(), 2);
    assert_eq!(heap.color_of(1), Some(Color::White));
    assert_eq!(heap.color_of(2), Some(Color::White));
    assert_eq!(heap.color_of(3), None);
    assert_eq!(heap.find_id(2), Some(&sym("kept")));
}

#[test]
fn collection_keeps_exactly_what_the_roots_reach() {
    let mut heap = AllocBox::new();
    heap.allocate(1, object_with(&[2, 3])).unwrap();
    heap.allocate(2, object_with(&[4])).unwrap();
    heap.allocate(3, sym("three")).unwrap();
    heap.allocate(4, object_with(&[1])).unwrap();
    heap.allocate(5, object_with(&[1])).unwrap();
    heap.allocate(6, object_with(&[6])).unwrap();
    heap.allocate(7, sym("root too")).unwrap();
    collect(&mut heap, &[1, 7]);
    assert_eq!(heap.len(), 5);
    for id in [1u128, 2, 3, 4, 7] {
        assert!(heap.is_allocated(id));
        assert_eq!(heap.color_of(id), Some(Color::White));
    }
    assert!(!heap.is_allocated(5));
    assert!(!heap.is_allocated(6));
    assert_eq!(heap.find_id(3), Some(&sym("three")));
}

#[test]
fn collection_does_not_depend_on_the_order_of_the_roots() {
    let build = || {
        let mut heap = AllocBox::new();
        heap.allocate(1, object_with(&[2])).unwrap();
        heap.allocate(2, object_with(&[3])).unwrap();
        heap.allocate(3, sym("x")).unwrap();
        heap.allocate(4, sym("y")).unwrap();
        heap
    };
    let mut a = build();
    let mut b = build();
    collect(&mut a, &[1, 2]);
    collect(&mut b, &[2, 1]);
    for id in [1u128, 2, 3, 4] {
        assert_eq!(a.is_allocated(id), b.is_allocated(id));
        assert_eq!(a.color_of(id), b.color_of(id));
    }
    assert_eq!(a.len(), 3);
}

#[test]
fn collection_without_roots_empties_the_heap() {
    let mut heap = AllocBox::new();
    heap.allocate(1, object_with(&[1])).unwrap();
    heap.allocate(2, sym("x")).unwrap();
    collect(&mut heap, &[]);
    assert!(heap.is_empty());
}

#[test]
fn collection_follows_a_long_chain() {
    let mut heap = AllocBox::new();
    let n: u128 = 5000;
    for id in 0..n {
        heap.allocate(id, object_with(&[id + 1])).unwrap();
    }
    heap.allocate(n, sym("end")).unwrap();
    heap.allocate(n + 1, sym("stray")).unwrap();
    collect(&mut heap, &[0]);
    assert_eq!(heap.len(), 5001);
    assert!(heap.is_allocated(n));
    assert!(!heap.is_allocated(n + 1));
}

#[test]
fn second_sweep_of_an_unmarked_heap_changes_nothing() {
    let mut heap = AllocBox::new();
    heap.allocate(1, sym("x")).unwrap();
    heap.sweep_phase();
    assert!(heap.is_empty());
    heap.sweep_phase();
    assert!(heap.is_empty());
}

#[test]
fn second_sweep_after_marking_discards_the_survivors() {
    let mut heap = AllocBox::new();
    heap.allocate(1, sym("x")).unwrap();
    collect(&mut heap, &[1]);
    assert_eq!(heap.len(), 1);
    heap.sweep_phase();
    assert!(heap.is_empty());
}
