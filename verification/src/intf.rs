//! Interfaces that the parts of the tool share.

use vstd::prelude::*;

verus! {

/// Things that can be saved to disk.
pub trait Save {
    fn save(&self) -> Result<(), String>;
}

} // verus!
