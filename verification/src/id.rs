//! Node identifiers.

use vstd::prelude::*;

verus! {

/// Handle of a view node. Identifiers are handed out by
/// [`AppState::create_node`](crate::state::AppState::create_node) in
/// increasing order and are never handed out twice.
#[derive(Clone, Copy, PartialEq, Eq, Structural, Debug, Hash)]
pub struct Id(pub u64);

impl Id {
    /// The number behind the handle.
    pub fn to_raw(&self) -> (raw: u64)
        ensures
            raw == self.0,
    {
        self.0
    }
}

} // verus!
