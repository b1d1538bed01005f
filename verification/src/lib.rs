#![verifier::loop_isolation(false)]

use vstd::prelude::*;

pub mod common;
pub mod predicate;
pub mod query_engine;
pub mod storage_engine;
pub mod table;

verus! {

pub fn add(left: usize, right: usize) -> (r: usize)
    requires
        left + right <= usize::MAX,
    ensures
        r == left + right,
{
    left + right
}

} // verus!
