//! The stages through which documentation passes on its way to an index.

use crate::tree::Ast;
use vstd::prelude::*;

verus! {

/// Documentation in one of its stages: [`Remote`](crate::Remote),
/// [`Compressed`](crate::Compressed), [`RawJson`](crate::RawJson),
/// [`Parsed`] or [`Indexed`](crate::Indexed). Each stage offers only the
/// step that leads on from it.
pub struct Doc<State>(pub State);

/// Documentation as a tree of items.
pub struct Parsed {
    pub ast: Ast,
}

impl Doc<Parsed> {
    pub fn new(ast: Ast) -> (r: Self)
        ensures
            r.0.ast == ast,
    {
        Doc(Parsed { ast })
    }
}

} // verus!
