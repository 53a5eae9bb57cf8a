//! A tracing mark-and-sweep garbage collector for a small stack virtual
//! machine. The heap is an arena of slots holding integer and pair objects;
//! pairs may reference other objects through handles, forming arbitrary
//! graphs including cycles. A bounded root stack anchors reachability, and
//! a collection reclaims exactly the slots that no root can reach.

pub mod heap;
pub mod laws;
pub mod vm;
