use crate::alloc_box::AllocBox;
use crate::heap_model::{HeapMap, HeapRecord};
use crate::scope::heap_after_push;
use crate::value::{is_random_identity, Payload, Property, Value, ValueKind};
use vstd::prelude::*;

verus! {

/// The property that an object gets from one entry handed to `make_obj`.
pub open spec fn property_of(entry: (String, Value, Option<Payload>)) -> Property {
    Property { key: entry.0, value: entry.1 }
}

/// The heap after the children among the first `n` of `entries` went in: each
/// pointer that comes with a payload is allocated, unless its identity is
/// taken.
pub open spec fn heap_with_children(
    heap: HeapMap,
    entries: Seq<(String, Value, Option<Payload>)>,
    n: int,
) -> HeapMap
    decreases n,
{
    if n <= 0 {
        heap
    } else {
        heap_after_push(heap_with_children(heap, entries, n - 1), entries[n - 1].1, entries[n - 1].2)
    }
}

/// A new string on the heap side: a pointer value under a fresh identity and
/// the payload that holds `s`.
pub fn make_str(s: &str) -> (r: (Value, Payload))
    ensures
        r.0.kind == ValueKind::Pointer,
        r.0.name.is_none(),
        r.0.capture.is_none(),
        is_random_identity(r.0.identity),
        r.1 matches Payload::Str(text) && text@ == s@,
{
    (Value::new(ValueKind::Pointer), Payload::Str(s.to_owned()))
}

/// A new number under a fresh identity; `bits` are the bits of its double.
pub fn make_num(bits: u64) -> (v: Value)
    ensures
        v.kind == ValueKind::Number(bits),
        v.name.is_none(),
        v.capture.is_none(),
        is_random_identity(v.identity),
{
    Value::new(ValueKind::Number(bits))
}

/// A new object with one property per entry, in order. A pointer entry that
/// comes with its payload has the payload allocated in the heap, so that the
/// object's children are resident; an identity that the heap already holds
/// is left as it is.
pub fn make_obj(entries: Vec<(String, Value, Option<Payload>)>, heap: &mut AllocBox) -> (r: (
    Value,
    Payload,
))
    requires
        old(heap).wf(),
    ensures
        final(heap).wf(),
        final(heap)@ == heap_with_children(old(heap)@, entries@, entries@.len() as int),
        r.0.kind == ValueKind::Pointer,
        r.0.name.is_none(),
        r.0.capture.is_none(),
        is_random_identity(r.0.identity),
        r.1 matches Payload::Object(props) && props@ == entries@.map_values(
            |e: (String, Value, Option<Payload>)| property_of(e),
        ),
{
    let ghost all = entries@;
    let mut props: Vec<Property> = Vec::new();
    for entry in it: entries
        invariant
            it.seq() == all,
            heap.wf(),
            heap@ == heap_with_children(old(heap)@, all, it.index()),
            props@ == all.take(it.index()).map_values(
                |e: (String, Value, Option<Payload>)| property_of(e),
            ),
    {
        let ghost done = props@;
        let (key, value, payload) = entry;
        if value.is_pointer() {
            match payload {
                Some(p) => {
                    let _ = heap.allocate(value.identity, p);
                },
                None => {},
            }
        }
        props.push(Property { key, value });
        proof {
            let f = |e: (String, Value, Option<Payload>)| property_of(e);
            assert(all.take(it.index() + 1) =~= all.take(it.index()).push(entry));
            assert(all.take(it.index() + 1).map_values(f) =~= done.push(f(entry)));
        }
    }
    proof {
        assert(all.take(all.len() as int) =~= all);
    }
    (Value::new(ValueKind::Pointer), Payload::Object(props))
}

/// An empty heap.
pub fn make_alloc_box() -> (heap: AllocBox)
    ensures
        heap.wf(),
        heap@ == Map::<u128, HeapRecord>::empty(),
{
    AllocBox::new()
}

} // verus!
