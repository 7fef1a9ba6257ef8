//! The memory core of a small scripting-language runtime: a heap with
//! tri-colour mark-and-sweep collection, and the stack of lexical scopes that
//! binds variables, captures closures and decides when the heap is collected.

pub mod alloc_box;
pub mod gc_error;
pub mod heap_model;
pub mod heap_proofs;
mod keys;
pub mod scope;
pub mod scope_manager;
pub mod test_utils;
pub mod value;

pub use alloc_box::AllocBox;
pub use gc_error::GcError;
pub use heap_model::{Color, HeapRecord};
pub use scope::{LookupError, Scope, ScopeTag, StoreError};
pub use scope_manager::{init_gc, ScopeManager, GC_THRESHOLD};
pub use value::{Payload, PayloadKind, Property, Value, ValueKind};
