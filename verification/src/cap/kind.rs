//! Zero-sized markers naming an object kind in a capability's type.

use crate::abi::object::ObjectType;
use crate::cap::object::ObjectKind;
use vstd::prelude::*;

verus! {

#[derive(Debug, Clone, Copy, PartialEq, Eq, Structural)]
pub struct Untyped;

impl ObjectKind for Untyped {
    open spec fn kind() -> ObjectType {
        ObjectType::Untyped
    }

    fn object_type() -> (r: ObjectType) {
        ObjectType::Untyped
    }
}

#[derive(Debug, Clone, Copy, PartialEq, Eq, Structural)]
pub struct DeviceUntyped;

impl ObjectKind for DeviceUntyped {
    open spec fn kind() -> ObjectType {
        ObjectType::DeviceUntyped
    }

    fn object_type() -> (r: ObjectType) {
        ObjectType::DeviceUntyped
    }
}

#[derive(Debug, Clone, Copy, PartialEq, Eq, Structural)]
pub struct CNode;

impl ObjectKind for CNode {
    open spec fn kind() -> ObjectType {
        ObjectType::CNode
    }

    fn object_type() -> (r: ObjectType) {
        ObjectType::CNode
    }
}

#[derive(Debug, Clone, Copy, PartialEq, Eq, Structural)]
pub struct Frame;

impl ObjectKind for Frame {
    open spec fn kind() -> ObjectType {
        ObjectType::Frame
    }

    fn object_type() -> (r: ObjectType) {
        ObjectType::Frame
    }
}

#[derive(Debug, Clone, Copy, PartialEq, Eq, Structural)]
pub struct PageTable;

impl ObjectKind for PageTable {
    open spec fn kind() -> ObjectType {
        ObjectType::PageTable
    }

    fn object_type() -> (r: ObjectType) {
        ObjectType::PageTable
    }
}

#[derive(Debug, Clone, Copy, PartialEq, Eq, Structural)]
pub struct Tcb;

impl ObjectKind for Tcb {
    open spec fn kind() -> ObjectType {
        ObjectType::Tcb
    }

    fn object_type() -> (r: ObjectType) {
        ObjectType::Tcb
    }
}

#[derive(Debug, Clone, Copy, PartialEq, Eq, Structural)]
pub struct Endpoint;

impl ObjectKind for Endpoint {
    open spec fn kind() -> ObjectType {
        ObjectType::Endpoint
    }

    fn object_type() -> (r: ObjectType) {
        ObjectType::Endpoint
    }
}

#[derive(Debug, Clone, Copy, PartialEq, Eq, Structural)]
pub struct Notification;

impl ObjectKind for Notification {
    open spec fn kind() -> ObjectType {
        ObjectType::Notification
    }

    fn object_type() -> (r: ObjectType) {
        ObjectType::Notification
    }
}

#[derive(Debug, Clone, Copy, PartialEq, Eq, Structural)]
pub struct Reply;

impl ObjectKind for Reply {
    open spec fn kind() -> ObjectType {
        ObjectType::Reply
    }

    fn object_type() -> (r: ObjectType) {
        ObjectType::Reply
    }
}

} // verus!
