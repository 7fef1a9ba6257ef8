use crate::alloc_box::AllocBox;
use crate::gc_error::GcError;
use crate::heap_model::{all_white, allocated, collected, survivors, updated, walks, HeapMap};
use crate::heap_proofs::lemma_collection_keeps_reachable;
use crate::keys::key_list;
use crate::value::{Payload, Value};
use std::collections::{HashMap, HashSet};
use vstd::prelude::*;

verus! {

broadcast use vstd::std_specs::hash::group_hash_axioms;

/// What kind of boundary a scope is. A block lets lookups through to the
/// scope below; a call or a closure does not.
#[derive(Clone, Copy, Debug, PartialEq, Eq, Structural)]
pub enum ScopeTag {
    Call,
    Block,
    /// The scope of a closure, with the capture identity it is kept under.
    Closure(u128),
}

/// Why a scope did not hand out a binding.
#[derive(Clone, Copy, Debug, PartialEq, Eq, Structural)]
pub enum LookupError {
    /// Not bound here, and the scope is a call or a closure: stop climbing.
    FnBoundary,
    /// Not bound here, and the scope is a block: try the scope below.
    CheckParent,
    /// Bound here as a pointer, but the heap holds nothing under it.
    Unreachable,
}

/// Why a scope did not take a store. The operands come back in every case.
#[derive(Clone, Debug, PartialEq, Eq)]
pub enum StoreError {
    /// An immediate that is not bound here, and the scope is a block: try the
    /// scope below.
    CheckParent(Value, Option<Payload>),
    /// An immediate that is not bound here, and the scope is a call or a
    /// closure: stop climbing.
    FnBoundary(Value, Option<Payload>),
    /// The heap holds a payload of another variant under the identity.
    PtrTypeMismatch(Value, Option<Payload>),
    /// A pointer came without a payload, or the heap holds nothing under it.
    BadStore(Value, Option<Payload>),
}

/// A scope as mathematics: its tag and its bindings by identity.
pub struct ScopeView {
    pub tag: ScopeTag,
    pub locals: Map<u128, Value>,
}

impl ScopeView {
    /// Every binding is filed under its own identity.
    pub open spec fn keyed(self) -> bool {
        forall|id: u128| self.locals.contains_key(id) ==> (#[trigger] self.locals[id]).identity == id
    }

    /// Whether a lookup that misses here may go on to the scope below.
    pub open spec fn transparent(self) -> bool {
        self.tag == ScopeTag::Block
    }

    /// The scope with one more binding, which replaces an earlier one of the
    /// same identity.
    pub open spec fn bound(self, value: Value) -> ScopeView {
        ScopeView { tag: self.tag, locals: self.locals.insert(value.identity, value) }
    }

    /// The scope after a store of `value` went through: an immediate replaces
    /// its binding; a pointer changes the heap alone.
    pub open spec fn after_store(self, value: Value) -> ScopeView {
        if value.is_pointer() {
            self
        } else {
            self.bound(value)
        }
    }

    /// The identities that the scope binds as pointers: its root set.
    pub open spec fn root_set(self) -> Set<u128> {
        Set::new(|id: u128| self.locals.contains_key(id) && self.locals[id].is_pointer())
    }

    /// The pointer bindings of the scope.
    pub open spec fn pointer_locals(self) -> Map<u128, Value> {
        self.locals.restrict(self.root_set())
    }

    /// The scope after it took over the pointer bindings of `src`.
    pub open spec fn received(self, src: ScopeView) -> ScopeView {
        ScopeView { tag: self.tag, locals: self.locals.union_prefer_right(src.pointer_locals()) }
    }

    /// The scope with no binding left.
    pub open spec fn drained(self) -> ScopeView {
        ScopeView { tag: self.tag, locals: Map::empty() }
    }

    /// What a lookup of `id` in this scope gives, over the heap `heap`.
    pub open spec fn lookup<'a>(self, heap: HeapMap, id: u128) -> Result<
        (&'a Value, Option<&'a Payload>),
        LookupError,
    > {
        if !self.locals.contains_key(id) {
            if self.transparent() {
                Err(LookupError::CheckParent)
            } else {
                Err(LookupError::FnBoundary)
            }
        } else if !self.locals[id].is_pointer() {
            Ok((&self.locals[id], None))
        } else if heap.contains_key(id) {
            Ok((&self.locals[id], Some(&heap[id].payload)))
        } else {
            Err(LookupError::Unreachable)
        }
    }
}

/// How a store of `value` with `payload` into a scope ends.
pub enum StoreOutcome {
    /// The payload of a pointer was replaced, or the binding of an immediate.
    Stored,
    /// An immediate that the scope does not bind.
    Missed,
    /// The heap holds another variant under the identity of a pointer.
    Mismatch,
    /// A pointer without a payload, or without a record in the heap.
    Broken,
}

/// How a store into the scope `scope` over the heap `heap` ends. A pointer is
/// a matter of payload and heap alone; an immediate needs its binding here.
pub open spec fn store_outcome(
    scope: ScopeView,
    heap: HeapMap,
    value: Value,
    payload: Option<Payload>,
) -> StoreOutcome {
    if value.is_pointer() {
        match payload {
            None => StoreOutcome::Broken,
            Some(p) => if !heap.contains_key(value.identity) {
                StoreOutcome::Broken
            } else if heap[value.identity].payload.kind() != p.kind() {
                StoreOutcome::Mismatch
            } else {
                StoreOutcome::Stored
            },
        }
    } else if scope.locals.contains_key(value.identity) {
        StoreOutcome::Stored
    } else {
        StoreOutcome::Missed
    }
}

/// The heap after a store that went through.
pub open spec fn heap_after_store(heap: HeapMap, value: Value, payload: Option<Payload>) -> HeapMap {
    match payload {
        Some(p) => if value.is_pointer() {
            updated(heap, value.identity, p)
        } else {
            heap
        },
        None => heap,
    }
}

/// One lexical activation: a boundary tag and the bindings made in it. The
/// payloads of its pointer bindings live in the heap, which every operation
/// that needs it is handed.
pub struct Scope {
    tag: ScopeTag,
    locals: HashMap<u128, Value>,
}

impl View for Scope {
    type V = ScopeView;

    closed spec fn view(&self) -> ScopeView {
        ScopeView { tag: self.tag, locals: self.locals@ }
    }
}

impl Scope {
    /// Every binding is filed under its own identity.
    pub open spec fn wf(&self) -> bool {
        self@.keyed()
    }

    /// A scope with the given tag and no binding.
    pub fn new(tag: ScopeTag) -> (scope: Scope)
        ensures
            scope.wf(),
            scope@ == (ScopeView { tag, locals: Map::empty() }),
    {
        Scope { tag, locals: HashMap::new() }
    }

    /// The boundary tag of the scope.
    pub fn tag(&self) -> (tag: ScopeTag)
        ensures
            tag == self@.tag,
    {
        self.tag
    }

    /// Gives the scope another tag; the bindings stay.
    pub fn set_tag(&mut self, tag: ScopeTag)
        ensures
            final(self)@ == (ScopeView { tag, locals: old(self)@.locals }),
    {
        self.tag = tag;
    }

    /// How many bindings the scope holds.
    pub fn len(&self) -> (n: usize)
        ensures
            self@.locals.dom().finite(),
            n == self@.locals.len(),
    {
        self.locals.len()
    }

    /// Records a binding for a value whose payload, if it has one, is already
    /// in the heap. An earlier binding of the same identity is replaced.
    pub fn bind_var(&mut self, value: Value)
        requires
            old(self).wf(),
        ensures
            final(self).wf(),
            final(self)@ == old(self)@.bound(value),
    {
        self.locals.insert(value.identity, value);
    }

    /// Records a binding for a new value. A pointer needs its payload, which
    /// goes into the heap first; an immediate is recorded as it is, and a
    /// payload that comes with it is dropped. Where the push fails, for want
    /// of a payload or because the heap holds the identity already, nothing
    /// is recorded and the heap stays as it is.
    pub fn push_var(&mut self, value: Value, payload: Option<Payload>, heap: &mut AllocBox) -> (r:
        Result<u128, GcError>)
        requires
            old(self).wf(),
            old(heap).wf(),
        ensures
            final(self).wf(),
            final(heap).wf(),
            r == push_result(old(heap)@, value, payload),
            final(self)@ == (if r is Ok {
                old(self)@.bound(value)
            } else {
                old(self)@
            }),
            final(heap)@ == heap_after_push(old(heap)@, value, payload),
    {
        let id = value.identity;
        let r = if value.is_pointer() {
            match payload {
                Some(p) => heap.allocate(id, p),
                None => Err(GcError::MissingPayload),
            }
        } else {
            Ok(id)
        };
        match r {
            Ok(_) => {
                self.locals.insert(id, value);
            },
            Err(_) => {},
        }
        r
    }

    /// The value bound under `id` with, for a pointer, its payload from the
    /// heap; or the reason why there is none to hand out.
    pub fn get_var_copy<'a>(&'a self, id: u128, heap: &'a AllocBox) -> (r: Result<
        (&'a Value, Option<&'a Payload>),
        LookupError,
    >)
        ensures
            r == self@.lookup(heap@, id),
    {
        match self.locals.get(&id) {
            None => match self.tag {
                ScopeTag::Block => Err(LookupError::CheckParent),
                _ => Err(LookupError::FnBoundary),
            },
            Some(value) => {
                if value.is_pointer() {
                    match heap.find_id(id) {
                        Some(payload) => Ok((value, Some(payload))),
                        None => Err(LookupError::Unreachable),
                    }
                } else {
                    Ok((value, None))
                }
            },
        }
    }

    /// The source name of the value bound under `id`, if it is bound and has
    /// one.
    pub fn get_var_binding(&self, id: u128) -> (name: Option<&String>)
        ensures
            match name {
                Some(n) => self@.locals.contains_key(id) && self@.locals[id].name == Some(*n),
                None => !self@.locals.contains_key(id) || self@.locals[id].name.is_none(),
            },
    {
        match self.locals.get(&id) {
            Some(value) => value.name.as_ref(),
            None => None,
        }
    }

    /// Stores `value`. For a pointer the payload replaces the one that the
    /// heap holds under the identity, which must be of the same variant; the
    /// scope and its bindings play no part. For an immediate the value
    /// replaces the binding of the same identity; a scope that does not bind
    /// it passes the store on (a block) or stops it (a call or a closure).
    /// Whatever is refused leaves scope and heap as they were and hands the
    /// operands back.
    pub fn update_var(&mut self, value: Value, payload: Option<Payload>, heap: &mut AllocBox) -> (r:
        Result<(), StoreError>)
        requires
            old(self).wf(),
            old(heap).wf(),
        ensures
            final(self).wf(),
            final(heap).wf(),
            match store_outcome(old(self)@, old(heap)@, value, payload) {
                StoreOutcome::Stored => r == Ok::<(), StoreError>(()) && final(self)@ == old(
                    self,
                )@.after_store(value) && final(heap)@ == heap_after_store(
                    old(heap)@,
                    value,
                    payload,
                ),
                StoreOutcome::Missed => final(self)@ == old(self)@ && final(heap)@ == old(heap)@
                    && r == (if old(self)@.transparent() {
                    Err::<(), StoreError>(StoreError::CheckParent(value, payload))
                } else {
                    Err::<(), StoreError>(StoreError::FnBoundary(value, payload))
                }),
                StoreOutcome::Mismatch => final(self)@ == old(self)@ && final(heap)@ == old(heap)@
                    && r == Err::<(), StoreError>(StoreError::PtrTypeMismatch(value, payload)),
                StoreOutcome::Broken => final(self)@ == old(self)@ && final(heap)@ == old(heap)@
                    && r == Err::<(), StoreError>(StoreError::BadStore(value, payload)),
            },
    {
        let id = value.identity;
        if value.is_pointer() {
            match payload {
                None => Err(StoreError::BadStore(value, None)),
                Some(p) => {
                    let stored = match heap.find_id(id) {
                        Some(held) => Some(held.kind()),
                        None => None,
                    };
                    match stored {
                        None => Err(StoreError::BadStore(value, Some(p))),
                        Some(kind) => {
                            if kind == p.kind() {
                                let _ = heap.update_ptr(id, p);
                                Ok(())
                            } else {
                                Err(StoreError::PtrTypeMismatch(value, Some(p)))
                            }
                        },
                    }
                },
            }
        } else if self.locals.contains_key(&id) {
            self.locals.insert(id, value);
            Ok(())
        } else {
            match self.tag {
                ScopeTag::Block => Err(StoreError::CheckParent(value, payload)),
                _ => Err(StoreError::FnBoundary(value, payload)),
            }
        }
    }

    /// Moves every pointer binding into `dest`, which owns it from then on,
    /// and drops the immediates: nothing is left in this scope.
    pub fn transfer_stack(&mut self, dest: &mut Scope)
        requires
            old(self).wf(),
            old(dest).wf(),
        ensures
            final(self).wf(),
            final(dest).wf(),
            final(self)@ == old(self)@.drained(),
            final(dest)@ == old(dest)@.received(old(self)@),
    {
        let ghost src = self@;
        let ghost dst = dest@;
        let ids = key_list(&self.locals);
        let mut i: usize = 0;
        assert(ids@.take(0).to_set() =~= Set::<u128>::empty());
        assert(self.locals@ =~= src.locals.remove_keys(Set::<u128>::empty()));
        assert(dest.locals@ =~= dst.locals.union_prefer_right(
            src.pointer_locals().restrict(Set::<u128>::empty()),
        ));
        while i < ids.len()
            invariant
                i <= ids.len(),
                ids@.no_duplicates(),
                ids@.to_set() == src.locals.dom(),
                src.keyed(),
                self.tag == src.tag,
                dest.tag == dst.tag,
                dest.wf(),
                self.locals@ == src.locals.remove_keys(ids@.take(i as int).to_set()),
                dest.locals@ == dst.locals.union_prefer_right(
                    src.pointer_locals().restrict(ids@.take(i as int).to_set()),
                ),
            decreases ids.len() - i,
        {
            let id = ids[i];
            let ghost done = ids@.take(i as int);
            assert(!done.to_set().contains(id)) by {
                if done.contains(id) {
                    let j = choose|j: int| 0 <= j < done.len() && done[j] == id;
                    assert(ids@[j] == id && ids@[i as int] == id);
                }
            }
            assert(src.locals.contains_key(id)) by {
                assert(ids@.contains(id));
                assert(ids@.to_set().contains(id));
            }
            match self.locals.remove(&id) {
                Some(value) => {
                    if value.is_pointer() {
                        dest.locals.insert(id, value);
                    }
                },
                None => {},
            }
            i += 1;
            proof {
                assert(ids@.take(i as int) =~= done.push(id));
                done.lemma_push_to_set_commute(id);
                assert(self.locals@ =~= src.locals.remove_keys(ids@.take(i as int).to_set()));
                assert(dest.locals@ =~= dst.locals.union_prefer_right(
                    src.pointer_locals().restrict(ids@.take(i as int).to_set()),
                ));
            }
        }
        proof {
            assert(ids@.take(ids@.len() as int) =~= ids@);
            assert(self.locals@ =~= Map::<u128, Value>::empty());
            assert(src.pointer_locals().restrict(ids@.to_set()) =~= src.pointer_locals());
        }
    }

    /// The root set of the scope: the identities it binds as pointers.
    pub fn roots(&self) -> (out: HashSet<u128>)
        ensures
            out@ == self@.root_set(),
    {
        let ids = key_list(&self.locals);
        let mut out: HashSet<u128> = HashSet::new();
        let mut i: usize = 0;
        assert(out@ =~= self@.root_set().intersect(ids@.take(0).to_set()));
        while i < ids.len()
            invariant
                i <= ids.len(),
                ids@.to_set() == self@.locals.dom(),
                out@ == self@.root_set().intersect(ids@.take(i as int).to_set()),
            decreases ids.len() - i,
        {
            let id = ids[i];
            let ghost done = ids@.take(i as int);
            let is_root = match self.locals.get(&id) {
                Some(value) => value.is_pointer(),
                None => false,
            };
            if is_root {
                out.insert(id);
            }
            i += 1;
            proof {
                assert(ids@.take(i as int) =~= done.push(id));
                done.lemma_push_to_set_commute(id);
                assert(out@ =~= self@.root_set().intersect(ids@.take(i as int).to_set()));
            }
        }
        proof {
            assert(ids@.take(ids@.len() as int) =~= ids@);
            assert(out@ =~= self@.root_set());
        }
        out
    }

    /// Runs one whole collection on the heap from the given roots: marks the
    /// roots, marks, sweeps. The roots are marked in the order in which the
    /// set hands them out. On a heap in which every record is white that
    /// order makes no difference: what is left are the records that the roots
    /// reach.
    pub fn trigger_gc(&self, roots: &HashSet<u128>, heap: &mut AllocBox)
        requires
            old(heap).wf(),
        ensures
            final(heap).wf(),
            exists|order: Seq<u128>| #[trigger]
                walks(order, roots@) && final(heap)@ == collected(old(heap)@, order),
            all_white(old(heap)@) ==> final(heap)@ == survivors(old(heap)@, roots@),
    {
        heap.mark_roots(roots);
        let ghost order = choose|order: Seq<u128>| #[trigger]
            walks(order, roots@) && heap@ == crate::heap_model::roots_marked(old(heap)@, order);
        heap.mark_phase();
        heap.sweep_phase();
        proof {
            assert(walks(order, roots@) && heap@ == collected(old(heap)@, order));
            if all_white(old(heap)@) {
                lemma_collection_keeps_reachable(old(heap)@, order);
            }
        }
    }
}

/// What pushing `value` with `payload` returns, over the heap `heap`.
pub open spec fn push_result(heap: HeapMap, value: Value, payload: Option<Payload>) -> Result<
    u128,
    GcError,
> {
    if !value.is_pointer() {
        Ok(value.identity)
    } else if payload.is_none() {
        Err(GcError::MissingPayload)
    } else if heap.contains_key(value.identity) {
        Err(GcError::DuplicateIdentity)
    } else {
        Ok(value.identity)
    }
}

/// The heap after `value` was pushed with `payload`.
pub open spec fn heap_after_push(heap: HeapMap, value: Value, payload: Option<Payload>) -> HeapMap {
    match payload {
        Some(p) => if value.is_pointer() && !heap.contains_key(value.identity) {
            allocated(heap, value.identity, p)
        } else {
            heap
        },
        None => heap,
    }
}

} // verus!
