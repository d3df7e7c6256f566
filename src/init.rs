//! Construction of values that need their own final place.

use vstd::prelude::*;

use crate::arena::Handle;

verus! {

/// A type whose values are built knowing where they will live.
///
/// `init` receives the handle of the slot that the value will occupy for the
/// rest of the arena's life, and may keep that handle inside the value (a
/// node that links to itself). What it returns is written to the slot once.
pub trait Init: Sized {
    type InitArg;

    fn init(me: Handle, arg: Self::InitArg) -> Self;
}

} // verus!
