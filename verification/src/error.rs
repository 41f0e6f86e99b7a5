use vstd::prelude::*;

verus! {

/// The single error kind for `insert`: it covers malformed patterns and
/// structural conflicts alike, and carries no payload, since a rejected
/// route is a configuration mistake to fix rather than a condition to
/// branch on.
#[derive(Clone, Copy, Debug, Eq, Hash, Ord, PartialEq, PartialOrd)]
pub struct InsertError {
    _priv: (),
}

impl InsertError {
    pub fn new() -> Self {
        Self { _priv: () }
    }
}

} // verus!
