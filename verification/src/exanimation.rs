//! ExAnimation list selection.
use vstd::prelude::*;

verus! {

/// Which animation list the ExAnimation dialog edits.
#[derive(Clone, Copy, Debug, Default, PartialEq, Eq)]
pub enum ExAnimList {
    /// The overworld list (runs on the world maps).
    #[default]
    Overworld,
    /// The global list (runs in every level).
    Global,
    /// The current level's list.
    Level,
}

} // verus!
