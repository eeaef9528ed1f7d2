use vstd::prelude::*;

verus! {

/// Identifies a source unit; supplied by the caller and stored verbatim in diagnostics.
pub type SourceUnitId = u32;

} // verus!
