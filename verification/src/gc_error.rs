use crate::value::{Payload, Value};
use vstd::prelude::*;

verus! {

/// Everything that can go wrong in the heap, in a scope or in the scope manager.
#[derive(Clone, Debug, PartialEq, Eq)]
pub enum GcError {
    /// A pointer value was pushed without the payload it points to.
    MissingPayload,
    /// The heap already holds a record under the identity being allocated.
    DuplicateIdentity,
    /// The heap holds no record under the identity being updated.
    UnknownIdentity,
    /// An update would change the variant of a stored payload.
    PayloadKindMismatch,
    /// A pointer was stored without a payload, or the heap holds no record
    /// under its identity.
    BadStore,
    /// The global scope was popped, or the stack was already empty.
    ScopeUnderflow,
    /// No closure is stored under the capture identity being re-entered.
    UnknownClosure,
    /// No scope that may be searched binds the identity; the identity comes back.
    LoadFailed(u128),
    /// No scope that may be searched binds the immediate being stored; the
    /// operands come back.
    StoreFailed(Value, Option<Payload>),
}

} // verus!
