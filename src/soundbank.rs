use vstd::prelude::*;

verus! {

/// What a sound does when all its instances are playing: refuse the new one, or
/// stop the oldest.
#[derive(Debug, Clone, Copy, PartialEq, Eq, Structural)]
pub enum DropMode {
    Drop,
    Oldest,
}

} // verus!
