//! A fixed-capacity bump arena.
//!
//! Values are carved out of a budget of `SIZE` bytes by a bump cursor that
//! only moves forward. Each value is reached through a [`Handle`], which names
//! its byte offset and its place in the drop log; a value can learn its own
//! handle while it is being built (see [`Init`]). Values live as long as the
//! arena and are dropped with it, oldest first.

mod arena;
mod bump;
mod init;

pub use arena::{Arena, Handle};
pub use bump::fits;
pub use init::Init;
