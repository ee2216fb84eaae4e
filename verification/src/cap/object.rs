//! The kernel side of the object model: the markers that put an object's kind
//! into a capability's type.

use crate::abi::object::ObjectType;
use vstd::prelude::*;

verus! {

/// Ties a marker type to the runtime tag it must match on lookup.
pub trait ObjectKind {
    /// The kind of object the marker names.
    spec fn kind() -> ObjectType;

    /// The kind of object the marker names.
    fn object_type() -> (r: ObjectType)
        ensures
            r == Self::kind(),
    ;
}

} // verus!
