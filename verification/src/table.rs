//! Column-type labels for the client-facing table abstraction.

use vstd::prelude::*;

verus! {

/// Indicators of the data types columns may carry, not data values
/// themselves.
#[derive(Debug, Clone, Copy, PartialEq, Eq, Structural)]
pub enum DataTypeLabel {
    UInt,
    SInt,
    Boolean,
    String,
    Clob,
    Blob,
}

} // verus!
