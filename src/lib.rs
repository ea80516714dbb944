//! A middleware pipeline: an ordered stack of handlers that a message passes
//! through, most recently attached first, stopping at the first failure.
use vstd::prelude::*;

pub mod middleware;
pub mod stack;

verus! {

pub use middleware::Middleware;
pub use stack::{Stack, Visit};

} // verus!
