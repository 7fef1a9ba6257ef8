use std::collections::HashSet;
use vstd::prelude::*;

verus! {

broadcast use vstd::std_specs::hash::group_hash_axioms;

/// The bits that every random identity carries: version 4 in the version
/// nibble, and the two leading variant bits `10`.
pub const IDENTITY_FIXED_MASK: u128 = 0x0000_0000_0000_f000_c000_0000_0000_0000;

pub const IDENTITY_FIXED_BITS: u128 = 0x0000_0000_0000_4000_8000_0000_0000_0000;

/// Whether `id` has the shape of a randomly drawn identity.
pub open spec fn is_random_identity(id: u128) -> bool {
    id & IDENTITY_FIXED_MASK == IDENTITY_FIXED_BITS
}

/// Draws a fresh identity with `uuid::Uuid::new_v4` and hands it out as the
/// number that `uuid::Uuid::as_u128` gives for it.
///
/// The identity is random, so nothing is claimed about which one comes back,
/// nor that two calls differ. What is claimed is the part that `new_v4` fixes
/// in every identity it makes: the version nibble is 4 and the variant bits
/// are `10`. `new_v4` panics if the operating system cannot supply random
/// bytes.
#[verifier::external_body]
fn random_identity() -> (id: u128)
    ensures
        is_random_identity(id),
{
    uuid::Uuid::new_v4().as_u128()
}

/// What a binding holds: an immediate, or a pointer into the heap.
#[derive(Clone, Copy, Debug, PartialEq, Eq, Structural)]
pub enum ValueKind {
    Undefined,
    Null,
    Bool(bool),
    /// A number, kept as the bits of its IEEE-754 double.
    Number(u64),
    /// The value lives in the heap under the binding's identity.
    Pointer,
}

/// One occurrence of a variable binding. Two values with the same identity
/// denote the same object, whatever else they hold.
#[derive(Clone, Debug, PartialEq, Eq)]
pub struct Value {
    pub kind: ValueKind,
    pub identity: u128,
    /// The name the binding has in the source, if it has one.
    pub name: Option<String>,
    /// For a closure, the identity under which its scope is kept.
    pub capture: Option<u128>,
}

impl Value {
    pub open spec fn spec_is_pointer(&self) -> bool {
        self.kind == ValueKind::Pointer
    }

    /// Whether the value points into the heap.
    #[verifier::when_used_as_spec(spec_is_pointer)]
    pub fn is_pointer(&self) -> (b: bool)
        ensures
            b == self.spec_is_pointer(),
    {
        match self.kind {
            ValueKind::Pointer => true,
            _ => false,
        }
    }

    /// An anonymous value of the given kind under the given identity.
    pub fn with_identity(kind: ValueKind, identity: u128) -> (v: Value)
        ensures
            v == (Value { kind, identity, name: None, capture: None }),
    {
        Value { kind, identity, name: None, capture: None }
    }

    /// An anonymous value of the given kind under a fresh random identity.
    pub fn new(kind: ValueKind) -> (v: Value)
        ensures
            v.kind == kind,
            v.name.is_none(),
            v.capture.is_none(),
            is_random_identity(v.identity),
    {
        Value::with_identity(kind, random_identity())
    }
}

/// The four variants a payload can have. A heap record never changes its
/// variant.
#[derive(Clone, Copy, Debug, PartialEq, Eq, Structural)]
pub enum PayloadKind {
    Object,
    Str,
    Symbol,
    Function,
}

/// One entry of an object: a key and the value stored under it.
#[derive(Clone, Debug, PartialEq, Eq)]
pub struct Property {
    pub key: String,
    pub value: Value,
}

/// The heap-resident body of a pointer value.
#[derive(Clone, Debug, PartialEq, Eq)]
pub enum Payload {
    /// An object: its properties, in the order they were written.
    Object(Vec<Property>),
    Str(String),
    Symbol(String),
    /// A function, known by the capture identity of its closure.
    Function(u128),
}

/// The identities that the pointer-valued among `props` hold, in order.
pub open spec fn property_targets(props: Seq<Property>) -> Seq<u128>
    decreases props.len(),
{
    if props.len() == 0 {
        Seq::empty()
    } else if props.last().value.is_pointer() {
        property_targets(props.drop_last()).push(props.last().value.identity)
    } else {
        property_targets(props.drop_last())
    }
}

impl Payload {
    pub open spec fn spec_kind(&self) -> PayloadKind {
        match self {
            Payload::Object(_) => PayloadKind::Object,
            Payload::Str(_) => PayloadKind::Str,
            Payload::Symbol(_) => PayloadKind::Symbol,
            Payload::Function(_) => PayloadKind::Function,
        }
    }

    /// Which variant the payload is.
    #[verifier::when_used_as_spec(spec_kind)]
    pub fn kind(&self) -> (k: PayloadKind)
        ensures
            k == self.spec_kind(),
    {
        match self {
            Payload::Object(_) => PayloadKind::Object,
            Payload::Str(_) => PayloadKind::Str,
            Payload::Symbol(_) => PayloadKind::Symbol,
            Payload::Function(_) => PayloadKind::Function,
        }
    }

    /// The heap identities that the payload refers to directly, one entry per
    /// pointer-valued property of an object, in order. Nothing but an object
    /// has any.
    pub open spec fn child_list(&self) -> Seq<u128> {
        match self {
            Payload::Object(props) => property_targets(props@),
            _ => Seq::empty(),
        }
    }

    /// The set of heap identities that the payload refers to directly.
    pub open spec fn child_set(&self) -> Set<u128> {
        self.child_list().to_set()
    }

    /// The heap identities that the payload refers to directly.
    pub fn children(&self) -> (out: HashSet<u128>)
        ensures
            out@ == self.child_set(),
    {
        let mut out: HashSet<u128> = HashSet::new();
        match self {
            Payload::Object(props) => {
                let mut i: usize = 0;
                assert(props@.take(0) =~= Seq::<Property>::empty());
                assert(out@ =~= property_targets(props@.take(0)).to_set());
                while i < props.len()
                    invariant
                        i <= props.len(),
                        out@ == property_targets(props@.take(i as int)).to_set(),
                    decreases props.len() - i,
                {
                    let p = &props[i];
                    if p.value.is_pointer() {
                        out.insert(p.value.identity);
                    }
                    i += 1;
                    proof {
                        let before = props@.take(i - 1);
                        assert(props@.take(i as int).drop_last() =~= before);
                        assert(props@.take(i as int).last() == props@[i - 1]);
                        if props@[i - 1].value.is_pointer() {
                            property_targets(before).lemma_push_to_set_commute(
                                props@[i - 1].value.identity,
                            );
                        }
                    }
                }
                assert(props@.take(props@.len() as int) =~= props@);
            },
            _ => {
                assert(out@ =~= Seq::<u128>::empty().to_set());
            },
        }
        out
    }
}

} // verus!
