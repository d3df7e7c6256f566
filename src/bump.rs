//! The bump cursor: how a byte budget is handed out.

use vstd::prelude::*;

verus! {

/// A reservation of `size` bytes at `cursor` lies inside a store of
/// `capacity` bytes.
pub open spec fn fits(cursor: nat, size: nat, capacity: nat) -> bool {
    cursor + size <= capacity
}

} // verus!
