use vstd::prelude::*;

use crate::stack::result_view;

verus! {

/// A unit of work in a pipeline.
///
/// Implementations decide what `handle` does with a message and which kind
/// they belong to. The two spec functions are what an implementation
/// promises about them. Both hold of everything by default, which promises
/// nothing. An implementation overrides them to say more. A generic caller
/// knows only what the contracts below say.
pub trait Middleware {
    /// `kind` may be the name of this handler's kind. Handlers of the same
    /// variant have the same kind whatever their state. A stack holds at most
    /// one handler of each kind.
    open spec fn has_kind(&self, kind: Seq<char>) -> bool {
        true
    }

    /// `outcome` is an answer that this handler may give to `message`. This
    /// is a relation rather than a function, so that a handler whose answers
    /// depend on its own state can say as much as it knows.
    open spec fn answers(&self, message: Seq<char>, outcome: Result<Seq<char>, Seq<char>>) -> bool {
        true
    }

    /// A stable name for the handler's kind.
    fn kind(&self) -> (r: String)
        ensures
            self.has_kind(r@),
    ;

    /// Processes a message: `Ok` with the (possibly changed) message, or
    /// `Err` with the reason for rejecting it.
    fn handle(&self, message: &str) -> (r: Result<String, String>)
        ensures
            self.answers(message@, result_view(r)),
    ;
}

} // verus!
