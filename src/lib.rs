//! Addressable queues: FIFO queues whose entries can also be removed
//! directly by key, and a least-recently-used queue built on top of them.
use vstd::prelude::*;

pub mod fifo;
pub mod lru;

verus! {

} // verus!
