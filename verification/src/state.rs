use vstd::prelude::*;

verus! {

/// Marks a camera that Strolle renders.
#[derive(Clone, Copy, Debug)]
pub struct ExtractedStrolleCamera;

} // verus!
