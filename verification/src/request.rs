//! Request shapes a front end can hand the store.
use vstd::prelude::*;

verus! {

/// A write-side request; reserved.
pub struct WriteRequest {}

/// A read-side request; reserved.
pub struct ReadRequest {}

/// One operation against the store.
pub enum Request {
    Get(Vec<u8>),
    ListKeys,
    Contains(Vec<u8>),
    Put(Vec<u8>, Vec<u8>),
    Remove(Vec<u8>),
}

} // verus!
