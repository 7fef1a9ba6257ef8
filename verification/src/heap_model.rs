use crate::value::Payload;
use vstd::prelude::*;

verus! {

/// The three colours of tri-colour marking. White is the state of a record
/// outside a collection; grey is found but not yet followed; black is live.
#[derive(Clone, Copy, Debug, PartialEq, Eq, Structural)]
pub enum Color {
    White,
    Grey,
    Black,
}

/// What the heap keeps under one identity.
#[derive(Clone, Debug, PartialEq, Eq)]
pub struct HeapRecord {
    pub payload: Payload,
    pub color: Color,
}

/// The heap as mathematics: a finite map from identity to record.
pub type HeapMap = Map<u128, HeapRecord>;

pub open spec fn has_color(m: HeapMap, id: u128, c: Color) -> bool {
    m.contains_key(id) && m[id].color == c
}

/// Every record is white: the state between two collections.
pub open spec fn all_white(m: HeapMap) -> bool {
    forall|k: u128| m.contains_key(k) ==> (#[trigger] m[k]).color == Color::White
}

/// The heap after a fresh white record went in under `id`.
pub open spec fn allocated(m: HeapMap, id: u128, payload: Payload) -> HeapMap {
    m.insert(id, HeapRecord { payload, color: Color::White })
}

/// What a lookup of `id` gives.
pub open spec fn found<'a>(m: HeapMap, id: u128) -> Option<&'a Payload> {
    if m.contains_key(id) {
        Some(&m[id].payload)
    } else {
        None
    }
}

/// The heap after the payload under `id` was replaced; the colour stays.
pub open spec fn updated(m: HeapMap, id: u128, payload: Payload) -> HeapMap {
    m.insert(id, HeapRecord { payload, color: m[id].color })
}

/// The heap with the record under `id` recoloured.
pub open spec fn painted(m: HeapMap, id: u128, c: Color) -> HeapMap {
    m.insert(id, HeapRecord { payload: m[id].payload, color: c })
}

/// The heap with every white record among `targets` turned grey.
pub open spec fn greyed(m: HeapMap, targets: Set<u128>) -> HeapMap {
    Map::new(
        |k: u128| m.contains_key(k),
        |k: u128|
            if targets.contains(k) && m[k].color == Color::White {
                HeapRecord { payload: m[k].payload, color: Color::Grey }
            } else {
                m[k]
            },
    )
}

/// Marking one root: a white root turns black and its white children grey;
/// a root that is absent or not white changes nothing.
pub open spec fn root_marked(m: HeapMap, root: u128) -> HeapMap {
    if has_color(m, root, Color::White) {
        greyed(painted(m, root, Color::Black), m[root].payload.child_set())
    } else {
        m
    }
}

/// Marking the roots one after the other, first to last.
pub open spec fn roots_marked(m: HeapMap, roots: Seq<u128>) -> HeapMap
    decreases roots.len(),
{
    if roots.len() == 0 {
        m
    } else {
        root_marked(roots_marked(m, roots.drop_last()), roots.last())
    }
}

/// The record at place `i` of `p` refers to the one at place `i + 1`.
pub open spec fn linked(m: HeapMap, p: Seq<u128>, i: int) -> bool {
    m[p[i]].payload.child_set().contains(p[i + 1])
}

/// A chain of records, each of which refers to the next.
pub open spec fn is_chain(m: HeapMap, p: Seq<u128>) -> bool {
    &&& p.len() > 0
    &&& forall|i: int| 0 <= i < p.len() ==> m.contains_key(#[trigger] p[i])
    &&& forall|i: int| 0 <= i < p.len() - 1 ==> #[trigger] linked(m, p, i)
}

/// `id` is in the heap and a chain of references leads to it from a root.
pub open spec fn reachable(m: HeapMap, roots: Set<u128>, id: u128) -> bool {
    exists|p: Seq<u128>| #[trigger] is_chain(m, p) && roots.contains(p[0]) && p.last() == id
}

/// A chain that starts at a grey record and goes on through white ones.
pub open spec fn is_white_trail(m: HeapMap, p: Seq<u128>) -> bool {
    &&& is_chain(m, p)
    &&& m[p[0]].color == Color::Grey
    &&& forall|i: int| 0 < i < p.len() ==> m[#[trigger] p[i]].color == Color::White
}

/// `id` is grey, or white and at the end of a trail of white records that
/// starts at a grey one: the records that marking will turn black.
pub open spec fn grey_reaches(m: HeapMap, id: u128) -> bool {
    exists|p: Seq<u128>| #[trigger] is_white_trail(m, p) && p.last() == id
}

/// The heap after marking has run until no record is grey.
pub open spec fn marked(m: HeapMap) -> HeapMap {
    Map::new(
        |k: u128| m.contains_key(k),
        |k: u128|
            if grey_reaches(m, k) {
                HeapRecord { payload: m[k].payload, color: Color::Black }
            } else {
                m[k]
            },
    )
}

/// The heap after a sweep: the white records are gone, the others are white.
pub open spec fn swept(m: HeapMap) -> HeapMap {
    Map::new(
        |k: u128| m.contains_key(k) && m[k].color != Color::White,
        |k: u128| HeapRecord { payload: m[k].payload, color: Color::White },
    )
}

/// One whole collection: mark the roots one after the other, mark, sweep.
pub open spec fn collected(m: HeapMap, roots: Seq<u128>) -> HeapMap {
    swept(marked(roots_marked(m, roots)))
}

/// Whether `order` is one way to walk the set `roots`: each member once.
pub open spec fn walks(order: Seq<u128>, roots: Set<u128>) -> bool {
    order.no_duplicates() && order.to_set() == roots
}

/// The records that a chain of references reaches from a root, as they are.
pub open spec fn survivors(m: HeapMap, roots: Set<u128>) -> HeapMap {
    m.restrict(Set::new(|id: u128| reachable(m, roots, id)))
}

/// The grey worklist holds each grey record once, and nothing else.
pub open spec fn worklist_tracks(m: HeapMap, w: Seq<u128>) -> bool {
    &&& w.no_duplicates()
    &&& forall|k: u128| w.contains(k) <==> has_color(m, k, Color::Grey)
}

} // verus!
