//! A record of turns with a shared value.
use vstd::prelude::*;

verus! {

/// The turns that somebody takes with a shared value, in order: what each found, and what
/// it left.
#[verifier::reject_recursive_types(C)]
pub struct TurnLog<C> {
    turns: Ghost<Seq<(C, C)>>,
}

impl<C> View for TurnLog<C> {
    type V = Seq<(C, C)>;

    closed spec fn view(&self) -> Seq<(C, C)> {
        self.turns@
    }
}

impl<C> TurnLog<C> {
    /// Before any turn.
    pub fn new() -> (r: Self)
        ensures
            r@ == Seq::<(C, C)>::empty(),
    {
        TurnLog { turns: Ghost(Seq::empty()) }
    }
}

} // verus!
