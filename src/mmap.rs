//! Access hints for a memory-mapped region.
use vstd::prelude::*;

verus! {

/// How a mapped region will be read; the system may take the hint or not.
#[derive(Debug, Clone, Copy, PartialEq, Eq)]
pub enum Madvice {
    Normal,
    Random,
    Sequential,
    WillNeed,
    DontNeed,
    HugePage,
}

} // verus!
