use vstd::prelude::*;

verus! {

/// Identifier of a stored document.
pub type DocId = u64;

/// Position of a token inside one document part.
pub type Position = u32;

/// Identifier of an indexed field path.
pub type XPathId = u32;

} // verus!
