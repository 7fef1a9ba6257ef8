use crate::alloc_box::AllocBox;
use crate::gc_error::GcError;
use crate::heap_model::{all_white, survivors, HeapMap};
use crate::scope::{
    heap_after_push, heap_after_store, store_outcome, LookupError, Scope, ScopeTag, ScopeView,
    StoreError, StoreOutcome,
};
use crate::value::{Payload, Value};
use std::collections::{HashMap, HashSet};
use vstd::prelude::*;

verus! {

broadcast use vstd::std_specs::hash::group_hash_axioms;

/// How many records the heap may hold before a scope that retires has it
/// collected unasked.
pub const GC_THRESHOLD: usize = 64;

/// The scopes of a stack as mathematics.
pub open spec fn frames_view(scopes: Seq<Scope>) -> Seq<ScopeView> {
    scopes.map_values(|s: Scope| s@)
}

/// The stored closures as mathematics.
pub open spec fn table_view(closures: Map<u128, Scope>) -> Map<u128, ScopeView> {
    closures.map_values(|s: Scope| s@)
}

/// The scope manager as mathematics.
pub struct ManagerView {
    /// The live scopes, the global one first.
    pub frames: Seq<ScopeView>,
    /// The scopes of returned closures, by capture identity.
    pub closures: Map<u128, ScopeView>,
    pub heap: HeapMap,
    pub threshold: usize,
}

impl ManagerView {
    /// The scope that binds `id` for a climb that starts at scope `i` and
    /// goes down through blocks only.
    pub open spec fn climb(self, id: u128, i: int) -> Option<int>
        decreases i + 1,
    {
        if i < 0 || i >= self.frames.len() {
            None
        } else if self.frames[i].locals.contains_key(id) {
            Some(i)
        } else if self.frames[i].transparent() {
            self.climb(id, i - 1)
        } else {
            None
        }
    }

    /// Whether the one look at the global scope that follows a failed climb
    /// finds `id`.
    pub open spec fn global_binds(self, id: u128) -> bool {
        self.frames.len() > 0 && self.frames[0].locals.contains_key(id)
    }

    /// The scope in which a load or a store of `id` ends up, if any.
    pub open spec fn resolve(self, id: u128) -> Option<int> {
        match self.climb(id, self.frames.len() - 1) {
            Some(i) => Some(i),
            None => if self.global_binds(id) {
                Some(0)
            } else {
                None
            },
        }
    }

    /// The binding that a load of `id` would hand out has its payload in the
    /// heap, if it is a pointer.
    pub open spec fn resident(self, id: u128) -> bool {
        match self.resolve(id) {
            Some(i) => self.frames[i].locals[id].is_pointer() ==> self.heap.contains_key(id),
            None => true,
        }
    }

    /// What a load of `id` gives.
    pub open spec fn loaded<'a>(self, id: u128) -> Result<
        (&'a Value, Option<&'a Payload>),
        GcError,
    > {
        match self.resolve(id) {
            Some(i) => match self.frames[i].lookup(self.heap, id) {
                Ok(found) => Ok(found),
                Err(_) => Err(GcError::LoadFailed(id)),
            },
            None => Err(GcError::LoadFailed(id)),
        }
    }

    /// What a store returns. A pointer is settled at once, by payload and
    /// heap; an immediate goes to the scope that a load of it would find.
    pub open spec fn store_result(self, value: Value, payload: Option<Payload>) -> Result<
        (),
        GcError,
    > {
        if value.is_pointer() {
            match store_outcome(self.frames.last(), self.heap, value, payload) {
                StoreOutcome::Stored => Ok(()),
                StoreOutcome::Mismatch => Err(GcError::PayloadKindMismatch),
                StoreOutcome::Broken => Err(GcError::BadStore),
                StoreOutcome::Missed => Err(GcError::StoreFailed(value, payload)),
            }
        } else {
            match self.resolve(value.identity) {
                Some(_) => Ok(()),
                None => Err(GcError::StoreFailed(value, payload)),
            }
        }
    }

    /// The manager after a store: a pointer that was taken has its payload
    /// replaced in the heap, an immediate that was taken its binding in the
    /// scope that binds it; a store that was refused changes nothing.
    pub open spec fn stored(self, value: Value, payload: Option<Payload>) -> ManagerView {
        if self.store_result(value, payload) is Err {
            self
        } else if value.is_pointer() {
            ManagerView { heap: heap_after_store(self.heap, value, payload), ..self }
        } else {
            let i = self.resolve(value.identity)->0;
            ManagerView { frames: self.frames.update(i, self.frames[i].bound(value)), ..self }
        }
    }

    /// What declaring `value` returns.
    pub open spec fn declare_result(value: Value, payload: Option<Payload>) -> Result<
        u128,
        GcError,
    > {
        if value.is_pointer() && payload.is_none() {
            Err(GcError::MissingPayload)
        } else {
            Ok(value.identity)
        }
    }

    /// The manager after `value` was declared in the top scope. Where the
    /// declaration fails, nothing changes.
    pub open spec fn declared(self, value: Value, payload: Option<Payload>) -> ManagerView {
        if Self::declare_result(value, payload) is Err {
            self
        } else {
            let top = self.frames.len() - 1;
            ManagerView {
                frames: self.frames.update(top, self.frames[top].bound(value)),
                closures: self.closures,
                heap: heap_after_push(self.heap, value, payload),
                threshold: self.threshold,
            }
        }
    }

    /// Whether a scope that retires has the heap collected.
    pub open spec fn collects(self, collect_after: bool) -> bool {
        collect_after || self.heap.len() > self.threshold
    }

    /// The live scopes after the top scope retired: it is gone, and the scope
    /// below has its pointer bindings, unless they went into a closure or the
    /// retiring scope is a closure's own.
    pub open spec fn frames_after_pop(self, capturing: Option<u128>) -> Seq<ScopeView> {
        let top = self.frames.last();
        let rest = self.frames.drop_last();
        let caller = rest.len() - 1;
        if capturing.is_none() && !(top.tag is Closure) {
            rest.update(caller, rest[caller].received(top))
        } else {
            rest
        }
    }

    /// The stored closures after the top scope retired: a new closure scope
    /// under `capturing` with the pointer bindings of the retiring scope, and
    /// a retiring closure scope back under its own capture identity.
    pub open spec fn closures_after_pop(self, capturing: Option<u128>) -> Map<u128, ScopeView> {
        let top = self.frames.last();
        let captured = match capturing {
            Some(unique) => self.closures.insert(
                unique,
                (ScopeView { tag: ScopeTag::Closure(unique), locals: Map::empty() }).received(top),
            ),
            None => self.closures,
        };
        match top.tag {
            ScopeTag::Closure(own) => captured.insert(
                own,
                if capturing.is_some() {
                    top.drained()
                } else {
                    top
                },
            ),
            _ => captured,
        }
    }

    /// The manager after its top scope retired, where that scope is not the
    /// global one and a collection, if there is one, starts from `roots`.
    pub open spec fn popped_with(
        self,
        capturing: Option<u128>,
        collect_after: bool,
        roots: Set<u128>,
    ) -> ManagerView {
        ManagerView {
            frames: self.frames_after_pop(capturing),
            closures: self.closures_after_pop(capturing),
            heap: if self.collects(collect_after) {
                survivors(self.heap, roots)
            } else {
                self.heap
            },
            threshold: self.threshold,
        }
    }

    /// The manager after its top scope retired, where a collection starts
    /// from the pointer bindings of the scope that is on top afterwards.
    pub open spec fn popped(self, capturing: Option<u128>, collect_after: bool) -> ManagerView {
        self.popped_with(
            capturing,
            collect_after,
            self.frames_after_pop(capturing).last().root_set(),
        )
    }

    /// The manager after its global scope was popped: the heap is collected
    /// one last time from `roots`, and no scope is left.
    pub open spec fn ended_with(self, roots: Set<u128>) -> ManagerView {
        ManagerView {
            frames: Seq::empty(),
            closures: self.closures,
            heap: survivors(self.heap, roots),
            threshold: self.threshold,
        }
    }

    /// The manager after its global scope was popped and the heap collected
    /// from that scope's own pointer bindings.
    pub open spec fn ended(self) -> ManagerView {
        self.ended_with(self.frames[0].root_set())
    }
}

/// A scope that retires without a request for collection, while the heap holds
/// no more records than the threshold, leaves the heap exactly as it was,
/// whatever the roots.
pub proof fn lemma_small_heap_not_collected(
    view: ManagerView,
    capturing: Option<u128>,
    roots: Set<u128>,
)
    requires
        view.heap.len() <= view.threshold,
    ensures
        view.popped_with(capturing, false, roots).heap == view.heap,
        view.popped(capturing, false).heap == view.heap,
{
}

/// Declaring a value leaves every record that the heap holds as it was.
pub proof fn lemma_declaring_keeps_records(
    view: ManagerView,
    value: Value,
    payload: Option<Payload>,
    id: u128,
)
    requires
        view.heap.contains_key(id),
    ensures
        view.declared(value, payload).heap.contains_key(id),
        view.declared(value, payload).heap[id] == view.heap[id],
{
}

/// The stack of live scopes, the scopes of returned closures, and the heap
/// they all share.
pub struct ScopeManager {
    /// The live scopes; the first one is the global scope.
    pub scopes: Vec<Scope>,
    /// The scopes of returned closures, by capture identity.
    pub closures: HashMap<u128, Scope>,
    pub alloc_box: AllocBox,
    /// A scope that retires has the heap collected when the heap holds more
    /// records than this, also where the caller did not ask for it.
    pub threshold: usize,
}

impl View for ScopeManager {
    type V = ManagerView;

    open spec fn view(&self) -> ManagerView {
        ManagerView {
            frames: frames_view(self.scopes@),
            closures: table_view(self.closures@),
            heap: self.alloc_box@,
            threshold: self.threshold,
        }
    }
}

impl ScopeManager {
    /// Every part is well formed and the heap is between two collections.
    pub open spec fn valid(&self) -> bool {
        &&& forall|i: int| 0 <= i < self.scopes@.len() ==> (#[trigger] self.scopes@[i]).wf()
        &&& forall|k: u128| self.closures@.contains_key(k) ==> (#[trigger] self.closures@[k]).wf()
        &&& self.alloc_box.wf()
        &&& all_white(self.alloc_box@)
    }

    /// Valid, and the global scope is still there.
    pub open spec fn wf(&self) -> bool {
        self.valid() && self.scopes@.len() >= 1
    }

    /// A manager over the given heap, with the global scope alone on the
    /// stack and the default threshold.
    pub fn new(alloc_box: AllocBox) -> (mgr: ScopeManager)
        requires
            alloc_box.wf(),
            all_white(alloc_box@),
        ensures
            mgr.wf(),
            mgr@ == (ManagerView {
                frames: seq![ScopeView { tag: ScopeTag::Call, locals: Map::empty() }],
                closures: Map::empty(),
                heap: alloc_box@,
                threshold: GC_THRESHOLD,
            }),
    {
        let mut scopes: Vec<Scope> = Vec::new();
        scopes.push(Scope::new(ScopeTag::Call));
        let mgr = ScopeManager {
            scopes,
            closures: HashMap::new(),
            alloc_box,
            threshold: GC_THRESHOLD,
        };
        proof {
            assert(mgr@.frames =~= seq![ScopeView { tag: ScopeTag::Call, locals: Map::empty() }]);
            assert(mgr@.closures =~= Map::<u128, ScopeView>::empty());
        }
        mgr
    }

    /// Enters a scope: a call scope if `is_call`, else a block.
    pub fn push_scope(&mut self, is_call: bool)
        requires
            old(self).valid(),
        ensures
            final(self).wf(),
            final(self)@ == (ManagerView {
                frames: old(self)@.frames.push(
                    ScopeView {
                        tag: if is_call {
                            ScopeTag::Call
                        } else {
                            ScopeTag::Block
                        },
                        locals: Map::empty(),
                    },
                ),
                ..old(self)@
            }),
    {
        let tag = if is_call {
            ScopeTag::Call
        } else {
            ScopeTag::Block
        };
        self.scopes.push(Scope::new(tag));
        proof {
            assert(self@.frames =~= old(self)@.frames.push(
                ScopeView { tag, locals: Map::empty() },
            ));
        }
    }

    /// Declares `value` in the top scope. A value that comes with a payload
    /// while the heap already holds its identity is an alias and is only
    /// bound; anything else is pushed, payload and all.
    pub fn allocate(&mut self, value: Value, payload: Option<Payload>) -> (r: Result<u128, GcError>)
        requires
            old(self).wf(),
        ensures
            final(self).wf(),
            r == ManagerView::declare_result(value, payload),
            final(self)@ == old(self)@.declared(value, payload),
    {
        let id = value.identity;
        let top = self.scopes.len() - 1;
        let r = if self.alloc_box.is_allocated(id) && payload.is_some() {
            self.scopes[top].bind_var(value);
            Ok(id)
        } else {
            match self.scopes[top].push_var(value, payload, &mut self.alloc_box) {
                Ok(_) => Ok(id),
                Err(e) => Err(e),
            }
        };
        proof {
            assert(self@.frames =~= old(self)@.declared(value, payload).frames);
        }
        r
    }

    /// Re-enters a returned closure: its scope leaves the table and goes on
    /// top of the stack. With no closure under `capture`, nothing changes.
    pub fn push_closure_scope(&mut self, capture: u128) -> (r: Result<(), GcError>)
        requires
            old(self).valid(),
        ensures
            final(self).valid(),
            r is Ok || old(self).wf() ==> final(self).wf(),
            old(self)@.closures.contains_key(capture) ==> r == Ok::<(), GcError>(()) && final(self)@ == (ManagerView {
                frames: old(self)@.frames.push(old(self)@.closures[capture]),
                closures: old(self)@.closures.remove(capture),
                ..old(self)@
            }),
            !old(self)@.closures.contains_key(capture) ==> r == Err::<(), GcError>(
                GcError::UnknownClosure,
            ) && final(self)@ == old(self)@,
    {
        match self.closures.remove(&capture) {
            Some(scope) => {
                self.scopes.push(scope);
                proof {
                    assert(self@.frames =~= old(self)@.frames.push(old(self)@.closures[capture]));
                    assert(self@.closures =~= old(self)@.closures.remove(capture));
                }
                Ok(())
            },
            None => {
                proof {
                    assert(self@.closures =~= old(self)@.closures);
                }
                Err(GcError::UnknownClosure)
            },
        }
    }

    /// Files the closure stored under `old_capture` under `new_capture`
    /// instead, with its tag changed to match, and says whether there was
    /// one. A closure already stored under `new_capture` is replaced.
    pub fn rename_closure(&mut self, old_capture: u128, new_capture: u128) -> (renamed: bool)
        requires
            old(self).valid(),
        ensures
            final(self).valid(),
            old(self).wf() ==> final(self).wf(),
            renamed == old(self)@.closures.contains_key(old_capture),
            renamed ==> final(self)@ == (ManagerView {
                closures: old(self)@.closures.remove(old_capture).insert(
                    new_capture,
                    ScopeView {
                        tag: ScopeTag::Closure(new_capture),
                        locals: old(self)@.closures[old_capture].locals,
                    },
                ),
                ..old(self)@
            }),
            !renamed ==> final(self)@ == old(self)@,
    {
        match self.closures.remove(&old_capture) {
            Some(scope) => {
                let mut scope = scope;
                scope.set_tag(ScopeTag::Closure(new_capture));
                self.closures.insert(new_capture, scope);
                proof {
                    assert(self@.closures =~= old(self)@.closures.remove(old_capture).insert(
                        new_capture,
                        ScopeView {
                            tag: ScopeTag::Closure(new_capture),
                            locals: old(self)@.closures[old_capture].locals,
                        },
                    ));
                }
                true
            },
            None => {
                proof {
                    assert(self@.closures =~= old(self)@.closures);
                }
                false
            },
        }
    }

    /// Retires the top scope; `roots`, where given, is where a collection
    /// starts, else the pointer bindings of the scope it is run on.
    fn retire(
        &mut self,
        capturing: Option<u128>,
        collect_after: bool,
        roots: Option<&HashSet<u128>>,
    ) -> (r: Result<(), GcError>)
        requires
            old(self).valid(),
        ensures
            final(self).valid(),
            old(self)@.frames.len() >= 2 ==> r == Ok::<(), GcError>(()) && final(self).wf()
                && final(self)@ == old(self)@.popped_with(
                capturing,
                collect_after,
                match roots {
                    Some(given) => given@,
                    None => old(self)@.frames_after_pop(capturing).last().root_set(),
                },
            ),
            old(self)@.frames.len() == 1 ==> r == Err::<(), GcError>(GcError::ScopeUnderflow)
                && final(self)@ == old(self)@.ended_with(
                match roots {
                    Some(given) => given@,
                    None => old(self)@.frames[0].root_set(),
                },
            ),
            old(self)@.frames.len() == 0 ==> r == Err::<(), GcError>(GcError::ScopeUnderflow)
                && final(self)@ == old(self)@,
    {
        let ghost before = self@;
        match self.scopes.pop() {
            None => {
                proof {
                    assert(self@.frames =~= before.frames);
                }
                Err(GcError::ScopeUnderflow)
            },
            Some(scope) => {
                let mut scope = scope;
                let ghost top = scope@;
                assert(top == before.frames.last());
                assert(self@.frames =~= before.frames.drop_last());
                if self.scopes.len() == 0 {
                    match roots {
                        Some(given) => {
                            scope.trigger_gc(given, &mut self.alloc_box);
                        },
                        None => {
                            let own = scope.roots();
                            scope.trigger_gc(&own, &mut self.alloc_box);
                        },
                    }
                    proof {
                        assert(self@.frames =~= Seq::<ScopeView>::empty());
                    }
                    return Err(GcError::ScopeUnderflow);
                }
                let caller = self.scopes.len() - 1;
                match capturing {
                    Some(unique) => {
                        let mut closure_scope = Scope::new(ScopeTag::Closure(unique));
                        scope.transfer_stack(&mut closure_scope);
                        self.closures.insert(unique, closure_scope);
                    },
                    None => {
                        match scope.tag() {
                            ScopeTag::Closure(_) => {},
                            _ => {
                                scope.transfer_stack(&mut self.scopes[caller]);
                            },
                        }
                    },
                }
                let ghost frames = self@.frames;
                let ghost captured = self@.closures;
                proof {
                    let rest = before.frames.drop_last();
                    if capturing.is_none() && !(top.tag is Closure) {
                        assert(frames =~= rest.update(caller as int, rest[caller as int].received(top)));
                    } else {
                        assert(frames =~= rest);
                    }
                    assert(frames == before.frames_after_pop(capturing));
                    match capturing {
                        Some(unique) => {
                            assert(captured =~= before.closures.insert(
                                unique,
                                (ScopeView {
                                    tag: ScopeTag::Closure(unique),
                                    locals: Map::empty(),
                                }).received(top),
                            ));
                        },
                        None => {
                            assert(captured =~= before.closures);
                        },
                    }
                }
                if collect_after || self.alloc_box.len() > self.threshold {
                    match roots {
                        Some(given) => {
                            self.scopes[caller].trigger_gc(given, &mut self.alloc_box);
                        },
                        None => {
                            let own = self.scopes[caller].roots();
                            self.scopes[caller].trigger_gc(&own, &mut self.alloc_box);
                        },
                    }
                }
                match scope.tag() {
                    ScopeTag::Closure(own) => {
                        self.closures.insert(own, scope);
                        proof {
                            assert(self@.closures =~= captured.insert(own, scope@));
                        }
                    },
                    _ => {
                        proof {
                            assert(self@.closures =~= captured);
                        }
                    },
                }
                proof {
                    assert(self@.frames =~= frames);
                }
                Ok(())
            },
        }
    }

    /// Retires the top scope.
    ///
    /// With only the global scope left, the program is ending: the heap is
    /// collected one last time from that scope's pointer bindings, the scope
    /// is dropped and the call fails with `ScopeUnderflow`; on an empty stack
    /// it fails the same way and changes nothing. Otherwise the pointer
    /// bindings of the retiring scope move on: into a new closure scope stored
    /// under `capturing` if that is given, else into the scope below, unless
    /// the retiring scope is itself a closure's, which keeps its bindings.
    /// Then the heap is collected from the pointer bindings of the scope now
    /// on top, if `collect_after` asks for it or the heap holds more records
    /// than the threshold. Last, a retiring closure scope goes back into the
    /// table under its own capture identity.
    ///
    /// The roots are those of one scope only: what only a scope further down
    /// or a stored closure binds does not count. A caller that knows the
    /// whole root set hands it to `pop_scope_with_roots`.
    pub fn pop_scope(&mut self, capturing: Option<u128>, collect_after: bool) -> (r: Result<
        (),
        GcError,
    >)
        requires
            old(self).valid(),
        ensures
            final(self).valid(),
            old(self)@.frames.len() >= 2 ==> r == Ok::<(), GcError>(()) && final(self).wf()
                && final(self)@ == old(self)@.popped(capturing, collect_after),
            old(self)@.frames.len() == 1 ==> r == Err::<(), GcError>(GcError::ScopeUnderflow)
                && final(self)@ == old(self)@.ended(),
            old(self)@.frames.len() == 0 ==> r == Err::<(), GcError>(GcError::ScopeUnderflow)
                && final(self)@ == old(self)@,
            old(self)@.frames.len() >= 2 && !collect_after && old(self)@.heap.len() <= old(
                self,
            )@.threshold ==> final(self)@.heap == old(self)@.heap,
    {
        self.retire(capturing, collect_after, None)
    }

    /// Retires the top scope as `pop_scope` does, but starts every collection
    /// from the root set that the caller supplies: what survives is what
    /// `roots` reaches, whichever scope binds it.
    pub fn pop_scope_with_roots(
        &mut self,
        capturing: Option<u128>,
        collect_after: bool,
        roots: &HashSet<u128>,
    ) -> (r: Result<(), GcError>)
        requires
            old(self).valid(),
        ensures
            final(self).valid(),
            old(self)@.frames.len() >= 2 ==> r == Ok::<(), GcError>(()) && final(self).wf()
                && final(self)@ == old(self)@.popped_with(capturing, collect_after, roots@),
            old(self)@.frames.len() == 1 ==> r == Err::<(), GcError>(GcError::ScopeUnderflow)
                && final(self)@ == old(self)@.ended_with(roots@),
            old(self)@.frames.len() == 0 ==> r == Err::<(), GcError>(GcError::ScopeUnderflow)
                && final(self)@ == old(self)@,
            old(self)@.frames.len() >= 2 && !collect_after && old(self)@.heap.len() <= old(
                self,
            )@.threshold ==> final(self)@.heap == old(self)@.heap,
    {
        self.retire(capturing, collect_after, Some(roots))
    }

    /// Whether the binding that a load of `identity` would hand out has its
    /// payload in the heap, if it is a pointer. A load may only be asked for
    /// where this holds: a pointer binding without a record is a broken heap.
    pub fn is_resident(&self, identity: u128) -> (b: bool)
        requires
            self.wf(),
        ensures
            b == self@.resident(identity),
    {
        let ghost view = self@;
        let mut i: usize = self.scopes.len();
        while i > 0
            invariant_except_break
                view.climb(identity, view.frames.len() - 1) == view.climb(identity, i - 1),
            invariant
                i <= self.scopes.len(),
                view == self@,
            ensures
                view.climb(identity, view.frames.len() - 1).is_none(),
            decreases i,
        {
            i -= 1;
            assert(view.frames[i as int] == self.scopes@[i as int]@);
            assert(view.climb(identity, i as int) == if view.frames[i as int].locals.contains_key(
                identity,
            ) {
                Some(i as int)
            } else if view.frames[i as int].transparent() {
                view.climb(identity, i - 1)
            } else {
                None
            });
            match self.scopes[i].get_var_copy(identity, &self.alloc_box) {
                Ok(_) => {
                    return true;
                },
                Err(LookupError::CheckParent) => {},
                Err(LookupError::FnBoundary) => {
                    break ;
                },
                Err(LookupError::Unreachable) => {
                    return false;
                },
            }
        }
        assert(view.frames[0] == self.scopes@[0]@);
        match self.scopes[0].get_var_copy(identity, &self.alloc_box) {
            Err(LookupError::Unreachable) => false,
            _ => true,
        }
    }

    /// The value bound under `identity`, with its payload if it is a pointer.
    ///
    /// The scopes are searched from the top down. A block that does not bind
    /// the identity passes the search on; a call or a closure that does not
    /// bind it ends the climb. After a climb that found nothing the global
    /// scope is looked at once, and if that fails too the load fails with
    /// `LoadFailed`.
    pub fn load<'a>(&'a self, identity: u128) -> (r: Result<
        (&'a Value, Option<&'a Payload>),
        GcError,
    >)
        requires
            self.wf(),
            self@.resident(identity),
        ensures
            r == self@.loaded(identity),
    {
        let ghost view = self@;
        let mut i: usize = self.scopes.len();
        while i > 0
            invariant_except_break
                view.climb(identity, view.frames.len() - 1) == view.climb(identity, i - 1),
            invariant
                i <= self.scopes.len(),
                view == self@,
                view.resident(identity),
            ensures
                view.climb(identity, view.frames.len() - 1).is_none(),
            decreases i,
        {
            i -= 1;
            assert(view.frames[i as int] == self.scopes@[i as int]@);
            assert(view.climb(identity, i as int) == if view.frames[i as int].locals.contains_key(
                identity,
            ) {
                Some(i as int)
            } else if view.frames[i as int].transparent() {
                view.climb(identity, i - 1)
            } else {
                None
            });
            match self.scopes[i].get_var_copy(identity, &self.alloc_box) {
                Ok(found) => {
                    return Ok(found);
                },
                Err(LookupError::CheckParent) => {},
                Err(_) => {
                    break ;
                },
            }
        }
        assert(view.frames[0] == self.scopes@[0]@);
        match self.scopes[0].get_var_copy(identity, &self.alloc_box) {
            Ok(found) => Ok(found),
            Err(_) => Err(GcError::LoadFailed(identity)),
        }
    }

    /// Stores `value`.
    ///
    /// A pointer is handed to the heap at once: its payload replaces the one
    /// under its identity, whichever scope binds it. A payload of another
    /// variant fails with `PayloadKindMismatch`, a pointer without payload or
    /// without a record in the heap with `BadStore`; no other scope is tried.
    ///
    /// An immediate replaces its binding in the scope that a load would find:
    /// the scopes are searched from the top down through blocks, and after a
    /// climb that found nothing the global scope is tried once. If that fails
    /// too, the store fails with `StoreFailed` and the operands come back.
    pub fn store(&mut self, value: Value, payload: Option<Payload>) -> (r: Result<(), GcError>)
        requires
            old(self).wf(),
        ensures
            final(self).wf(),
            r == old(self)@.store_result(value, payload),
            final(self)@ == old(self)@.stored(value, payload),
    {
        let ghost view = self@;
        let ghost id = value.identity;
        let mut operand = value;
        let mut body = payload;
        let mut i: usize = self.scopes.len();
        while i > 0
            invariant_except_break
                view.climb(id, view.frames.len() - 1) == view.climb(id, i - 1),
            invariant
                i <= self.scopes.len(),
                self.wf(),
                view == self@,
                view == old(self)@,
                operand == value,
                body == payload,
                id == value.identity,
                value.is_pointer() ==> i == self.scopes.len(),
            ensures
                view.climb(id, view.frames.len() - 1).is_none(),
                !value.is_pointer(),
            decreases i,
        {
            i -= 1;
            assert(view.frames[i as int] == self.scopes@[i as int]@);
            assert(view.climb(id, i as int) == if view.frames[i as int].locals.contains_key(id) {
                Some(i as int)
            } else if view.frames[i as int].transparent() {
                view.climb(id, i - 1)
            } else {
                None
            });
            match self.scopes[i].update_var(operand, body, &mut self.alloc_box) {
                Ok(()) => {
                    proof {
                        assert(self@.frames =~= view.stored(value, payload).frames);
                    }
                    return Ok(());
                },
                Err(StoreError::CheckParent(v, p)) => {
                    operand = v;
                    body = p;
                    proof {
                        assert(self@.frames =~= view.frames);
                    }
                },
                Err(StoreError::FnBoundary(v, p)) => {
                    operand = v;
                    body = p;
                    proof {
                        assert(self@.frames =~= view.frames);
                    }
                    break ;
                },
                Err(StoreError::PtrTypeMismatch(_, _)) => {
                    proof {
                        assert(self@.frames =~= view.frames);
                    }
                    return Err(GcError::PayloadKindMismatch);
                },
                Err(StoreError::BadStore(_, _)) => {
                    proof {
                        assert(self@.frames =~= view.frames);
                    }
                    return Err(GcError::BadStore);
                },
            }
        }
        assert(view.frames[0] == self.scopes@[0]@);
        match self.scopes[0].update_var(operand, body, &mut self.alloc_box) {
            Ok(()) => {
                proof {
                    assert(self@.frames =~= view.stored(value, payload).frames);
                }
                Ok(())
            },
            Err(StoreError::CheckParent(v, p)) => {
                proof {
                    assert(self@.frames =~= view.frames);
                }
                Err(GcError::StoreFailed(v, p))
            },
            Err(StoreError::FnBoundary(v, p)) => {
                proof {
                    assert(self@.frames =~= view.frames);
                }
                Err(GcError::StoreFailed(v, p))
            },
            Err(StoreError::PtrTypeMismatch(_, _)) => Err(GcError::PayloadKindMismatch),
            Err(StoreError::BadStore(_, _)) => Err(GcError::BadStore),
        }
    }
}

/// A manager over an empty heap.
pub fn init_gc() -> (mgr: ScopeManager)
    ensures
        mgr.wf(),
        mgr@ == (ManagerView {
            frames: seq![ScopeView { tag: ScopeTag::Call, locals: Map::empty() }],
            closures: Map::empty(),
            heap: Map::empty(),
            threshold: GC_THRESHOLD,
        }),
{
    ScopeManager::new(AllocBox::new())
}

} // verus!
