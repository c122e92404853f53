use vstd::prelude::*;

verus! {

/// The one failure of the set: a value to remove is not stored.
#[derive(Debug, Clone, Copy, PartialEq, Eq, Structural)]
pub enum HashSetError {
    RemoveError,
}

} // verus!
