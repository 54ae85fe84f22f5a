//! Errors met while reading the map of a lumber collection area.

use vstd::prelude::*;

verus! {

/// What can be wrong with the input map of an area.
#[derive(Debug)]
pub enum Error {
    /// A character that stands for no kind of acre.
    InvalidInputChar(char),
    /// A row whose size differs from the rows before it.
    InconsistentInputRowSize { old_size: usize, new_size: usize },
    /// An index that falls outside the map.
    InvalidMapIndex(usize),
}

} // verus!
