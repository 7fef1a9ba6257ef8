use crate::gc_error::GcError;
use crate::heap_model::{
    allocated, found, greyed, has_color, marked, painted, root_marked, roots_marked, swept, updated,
    walks, worklist_tracks, Color, HeapMap, HeapRecord,
};
use crate::heap_proofs::{
    lemma_mark_done, lemma_mark_start, lemma_mark_step, mark_progress, unmarked,
};
use crate::keys::{key_list, member_list};
use crate::value::Payload;
use std::collections::{HashMap, HashSet};
use vstd::prelude::*;

verus! {

broadcast use vstd::std_specs::hash::group_hash_axioms;

/// The heap: sole owner of every payload, keyed by identity, with the colour
/// that tri-colour marking gives each record.
pub struct AllocBox {
    records: HashMap<u128, HeapRecord>,
    /// The grey records, in the order they were found.
    grey: Vec<u128>,
}

impl View for AllocBox {
    type V = HeapMap;

    closed spec fn view(&self) -> HeapMap {
        self.records@
    }
}

/// Recolours one record in place.
fn repaint(records: &mut HashMap<u128, HeapRecord>, id: u128, color: Color)
    requires
        old(records)@.contains_key(id),
    ensures
        final(records)@ == painted(old(records)@, id, color),
{
    let taken = records.remove(&id);
    match taken {
        Some(rec) => {
            records.insert(id, HeapRecord { payload: rec.payload, color });
        },
        None => {},
    }
    assert(records@ =~= painted(old(records)@, id, color));
}

/// Turns each white record among `children` grey and queues it.
fn grey_children(
    records: &mut HashMap<u128, HeapRecord>,
    grey: &mut Vec<u128>,
    children: &HashSet<u128>,
)
    requires
        worklist_tracks(old(records)@, old(grey)@),
    ensures
        final(records)@ == greyed(old(records)@, children@),
        worklist_tracks(final(records)@, final(grey)@),
{
    let ghost m0 = records@;
    let list = member_list(children);
    let mut i: usize = 0;
    assert(records@ =~= greyed(m0, list@.take(0).to_set()));
    while i < list.len()
        invariant
            i <= list.len(),
            records@ == greyed(m0, list@.take(i as int).to_set()),
            worklist_tracks(records@, grey@),
        decreases list.len() - i,
    {
        let c = list[i];
        let ghost queue = grey@;
        let white = match records.get(&c) {
            Some(rec) => rec.color == Color::White,
            None => false,
        };
        if white {
            repaint(records, c, Color::Grey);
            grey.push(c);
            assert(worklist_tracks(records@, grey@)) by {
                assert(!queue.contains(c));
                assert forall|k: u128| grey@.contains(k) <==> has_color(
                    records@,
                    k,
                    Color::Grey,
                ) by {
                    if k == c {
                        assert(grey@[queue.len() as int] == c);
                    } else {
                        if queue.contains(k) {
                            let j = choose|j: int| 0 <= j < queue.len() && queue[j] == k;
                            assert(grey@[j] == k);
                        }
                        if grey@.contains(k) {
                            let j = choose|j: int| 0 <= j < grey@.len() && grey@[j] == k;
                            assert(queue[j] == k);
                        }
                    }
                }
            }
        }
        i += 1;
        proof {
            let done = list@.take(i - 1);
            assert(list@.take(i as int) =~= done.push(c));
            done.lemma_push_to_set_commute(c);
            assert(records@ =~= greyed(m0, list@.take(i as int).to_set()));
        }
    }
    assert(list@.take(list@.len() as int) =~= list@);
}

impl AllocBox {
    /// The grey worklist agrees with the colours of the records.
    pub closed spec fn wf(&self) -> bool {
        worklist_tracks(self.records@, self.grey@)
    }

    /// An empty heap.
    pub fn new() -> (heap: AllocBox)
        ensures
            heap.wf(),
            heap@ == Map::<u128, HeapRecord>::empty(),
    {
        AllocBox { records: HashMap::new(), grey: Vec::new() }
    }

    /// How many records the heap holds.
    pub fn len(&self) -> (n: usize)
        ensures
            self@.dom().finite(),
            n == self@.len(),
    {
        self.records.len()
    }

    /// Whether the heap holds no record.
    pub fn is_empty(&self) -> (b: bool)
        ensures
            b == (self@.len() == 0),
    {
        self.records.len() == 0
    }

    /// Whether the heap holds a record under `id`.
    pub fn is_allocated(&self, id: u128) -> (b: bool)
        ensures
            b == self@.contains_key(id),
    {
        self.records.contains_key(&id)
    }

    /// The colour of the record under `id`, if there is one.
    pub fn color_of(&self, id: u128) -> (c: Option<Color>)
        ensures
            c == (if self@.contains_key(id) {
                Some(self@[id].color)
            } else {
                None
            }),
    {
        match self.records.get(&id) {
            Some(rec) => Some(rec.color),
            None => None,
        }
    }

    /// Puts `payload` into the heap under `id`, white. An identity that is
    /// already taken is refused and the heap stays as it is.
    pub fn allocate(&mut self, id: u128, payload: Payload) -> (r: Result<u128, GcError>)
        requires
            old(self).wf(),
        ensures
            final(self).wf(),
            old(self)@.contains_key(id) ==> r == Err::<u128, GcError>(GcError::DuplicateIdentity)
                && final(self)@ == old(self)@,
            !old(self)@.contains_key(id) ==> r == Ok::<u128, GcError>(id) && final(self)@
                == allocated(old(self)@, id, payload),
    {
        if self.records.contains_key(&id) {
            Err(GcError::DuplicateIdentity)
        } else {
            self.records.insert(id, HeapRecord { payload, color: Color::White });
            Ok(id)
        }
    }

    /// The payload stored under `id`, if there is one.
    pub fn find_id(&self, id: u128) -> (r: Option<&Payload>)
        ensures
            r == found(self@, id),
    {
        match self.records.get(&id) {
            Some(rec) => Some(&rec.payload),
            None => None,
        }
    }

    /// Replaces the payload under `id` by one of the same variant. The record
    /// keeps its colour. Any refusal leaves the heap as it is.
    pub fn update_ptr(&mut self, id: u128, payload: Payload) -> (r: Result<(), GcError>)
        requires
            old(self).wf(),
        ensures
            final(self).wf(),
            !old(self)@.contains_key(id) ==> r == Err::<(), GcError>(GcError::UnknownIdentity)
                && final(self)@ == old(self)@,
            old(self)@.contains_key(id) && old(self)@[id].payload.kind() != payload.kind() ==> r
                == Err::<(), GcError>(GcError::PayloadKindMismatch) && final(self)@ == old(self)@,
            old(self)@.contains_key(id) && old(self)@[id].payload.kind() == payload.kind() ==> r
                == Ok::<(), GcError>(()) && final(self)@ == updated(old(self)@, id, payload),
    {
        let stored = match self.records.get(&id) {
            Some(rec) => Some((rec.payload.kind(), rec.color)),
            None => None,
        };
        match stored {
            None => Err(GcError::UnknownIdentity),
            Some((kind, color)) => {
                if kind == payload.kind() {
                    self.records.insert(id, HeapRecord { payload, color });
                    Ok(())
                } else {
                    Err(GcError::PayloadKindMismatch)
                }
            },
        }
    }

    /// Marks one root.
    fn mark_root(&mut self, root: u128)
        requires
            old(self).wf(),
        ensures
            final(self).wf(),
            final(self)@ == root_marked(old(self)@, root),
    {
        let children = match self.records.get(&root) {
            Some(rec) => {
                if rec.color == Color::White {
                    Some(rec.payload.children())
                } else {
                    None
                }
            },
            None => None,
        };
        match children {
            Some(children) => {
                repaint(&mut self.records, root, Color::Black);
                grey_children(&mut self.records, &mut self.grey, &children);
            },
            None => {},
        }
    }

    /// Marks the given roots one after the other, first to last.
    fn mark_roots_in_order(&mut self, roots: &Vec<u128>)
        requires
            old(self).wf(),
        ensures
            final(self).wf(),
            final(self)@ == roots_marked(old(self)@, roots@),
    {
        let ghost m0 = self@;
        let mut i: usize = 0;
        assert(roots@.take(0) =~= Seq::<u128>::empty());
        while i < roots.len()
            invariant
                i <= roots.len(),
                self.wf(),
                self@ == roots_marked(m0, roots@.take(i as int)),
            decreases roots.len() - i,
        {
            self.mark_root(roots[i]);
            i += 1;
            proof {
                assert(roots@.take(i as int).drop_last() =~= roots@.take(i - 1));
            }
        }
        assert(roots@.take(roots@.len() as int) =~= roots@);
    }

    /// Marks the roots, one after the other: each root that is white at its
    /// turn turns black, and each of its children that is white turns grey. A
    /// root that the heap does not hold, or that is no longer white at its
    /// turn, is passed over. The roots are taken in the order in which the
    /// set hands them out, which is not known beforehand: the result is that
    /// of marking them in some order that takes each once.
    pub fn mark_roots(&mut self, roots: &HashSet<u128>)
        requires
            old(self).wf(),
        ensures
            final(self).wf(),
            exists|order: Seq<u128>| #[trigger]
                walks(order, roots@) && final(self)@ == roots_marked(old(self)@, order),
    {
        let order = member_list(roots);
        self.mark_roots_in_order(&order);
        assert(walks(order@, roots@));
    }

    /// Marks until no record is grey: takes one grey record at a time, turns
    /// it black and its white children grey. The loop is a worklist, so a deep
    /// or cyclic graph costs no call stack.
    pub fn mark_phase(&mut self)
        requires
            old(self).wf(),
        ensures
            final(self).wf(),
            final(self)@ == marked(old(self)@),
    {
        let ghost m0 = self@;
        proof {
            lemma_mark_start(m0);
        }
        while self.grey.len() > 0
            invariant
                self.wf(),
                mark_progress(m0, self@),
            decreases unmarked(self@).len(),
        {
            let ghost before = self@;
            let ghost queue = self.grey@;
            let id = match self.grey.pop() {
                Some(id) => id,
                None => 0,
            };
            assert(queue.contains(id)) by {
                assert(queue[queue.len() - 1] == id);
            }
            let children = match self.records.get(&id) {
                Some(rec) => rec.payload.children(),
                None => HashSet::new(),
            };
            repaint(&mut self.records, id, Color::Black);
            assert(worklist_tracks(self.records@, self.grey@)) by {
                assert forall|k: u128| self.grey@.contains(k) <==> has_color(
                    self.records@,
                    k,
                    Color::Grey,
                ) by {
                    if self.grey@.contains(k) {
                        let j = choose|j: int| 0 <= j < self.grey@.len() && self.grey@[j] == k;
                        assert(queue[j] == k);
                    }
                    if k != id && queue.contains(k) {
                        let j = choose|j: int| 0 <= j < queue.len() && queue[j] == k;
                        assert(self.grey@[j] == k);
                    }
                }
            }
            grey_children(&mut self.records, &mut self.grey, &children);
            proof {
                lemma_mark_step(m0, before, id, self@);
                before.dom().lemma_len_filter(|k: u128| before[k].color != Color::Black);
            }
        }
        proof {
            assert forall|k: u128| !has_color(self@, k, Color::Grey) by {
                assert(!self.grey@.contains(k));
            }
            lemma_mark_done(m0, self@);
        }
    }

    /// Sweeps: every record that is still white is discarded, and every
    /// record that is left turns white for the next collection.
    pub fn sweep_phase(&mut self)
        requires
            old(self).wf(),
        ensures
            final(self).wf(),
            final(self)@ == swept(old(self)@),
    {
        let ghost m0 = self@;
        let ids = key_list(&self.records);
        let mut kept: HashMap<u128, HeapRecord> = HashMap::new();
        let mut i: usize = 0;
        assert(ids@.take(0).to_set() =~= Set::<u128>::empty());
        assert(self.records@ =~= m0.remove_keys(Set::<u128>::empty()));
        assert(kept@ =~= swept(m0).restrict(Set::<u128>::empty()));
        while i < ids.len()
            invariant
                i <= ids.len(),
                ids@.no_duplicates(),
                ids@.to_set() == m0.dom(),
                self.records@ == m0.remove_keys(ids@.take(i as int).to_set()),
                kept@ == swept(m0).restrict(ids@.take(i as int).to_set()),
            decreases ids.len() - i,
        {
            let id = ids[i];
            let ghost done = ids@.take(i as int);
            assert(!done.to_set().contains(id)) by {
                if done.contains(id) {
                    let j = choose|j: int| 0 <= j < done.len() && done[j] == id;
                    assert(ids@[j] == id && ids@[i as int] == id);
                }
            }
            assert(m0.contains_key(id)) by {
                assert(ids@.contains(id));
                assert(ids@.to_set().contains(id));
            }
            let taken = self.records.remove(&id);
            match taken {
                Some(rec) => {
                    if rec.color != Color::White {
                        kept.insert(id, HeapRecord { payload: rec.payload, color: Color::White });
                    }
                },
                None => {},
            }
            i += 1;
            proof {
                assert(ids@.take(i as int) =~= done.push(id));
                done.lemma_push_to_set_commute(id);
                assert(self.records@ =~= m0.remove_keys(ids@.take(i as int).to_set()));
                assert(kept@ =~= swept(m0).restrict(ids@.take(i as int).to_set()));
            }
        }
        proof {
            assert(ids@.take(ids@.len() as int) =~= ids@);
            assert(kept@ =~= swept(m0));
        }
        self.records = kept;
        self.grey = Vec::new();
    }
}

} // verus!
