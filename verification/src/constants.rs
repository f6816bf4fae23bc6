use vstd::prelude::*;

verus! {

/// Deepest ply the search tables hold.
pub const MAX_DEPTH: usize = 64;

/// A score beyond every evaluation: the initial bounds of a search.
pub const INFINITE: i32 = 32000;

/// Score of being mated now.
pub const CHECKMATE: i32 = 31000;

/// Scores beyond this one stand for a mate within `MAX_DEPTH` plies.
pub const CHECKMATE_THRESHOLD: i32 = 30936;

} // verus!
