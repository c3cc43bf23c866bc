//! A token as a run holds it: to be looked at, and no more.
use crate::builder::stream_workers::looked;
use crate::sync::CancellationToken;
use crate::sync::cancel::stopped;
use crate::sync::flag::{UseLog, new_record};
use vstd::prelude::*;

verus! {

/// What can be asked whether a run is to stop.
///
/// A run works with whatever implements this and knows no more of it, so it has no means
/// to cancel or to reset the token that stops it: what it finds there was put there by
/// somebody else.
pub trait Stops {
    /// The token that stops the run, where there is one.
    spec fn token(&self) -> Option<CancellationToken>;

    /// Whether there is a token that is signalled; records that this was asked.
    fn look(&self, uses: &mut UseLog) -> (b: bool)
        ensures
            looked(self.token(), old(uses)@, final(uses)@, b),
        opens_invariants none
    ;

    /// Whether there is a token that is signalled.
    fn glance(&self) -> (b: bool)
        ensures
            match self.token() {
                Some(token) => token.found(b),
                None => !b,
            },
            stopped(self.token()) ==> b,
        opens_invariants [ new_record() ]
    ;
}

impl Stops for Option<CancellationToken> {
    open spec fn token(&self) -> Option<CancellationToken> {
        *self
    }

    fn look(&self, uses: &mut UseLog) -> (b: bool) {
        match self {
            Some(token) => {
                let b: bool = token.is_cancelled_on_record(uses);
                proof {
                    assert(uses@.drop_last() =~= old(uses)@);
                    assert(old(uses)@ =~= uses@.take(old(uses)@.len() as int));
                    assert(self.token() == Some(*token));
                }
                b
            },
            None => false,
        }
    }

    fn glance(&self) -> (b: bool) {
        match self {
            Some(token) => token.is_cancelled(),
            None => false,
        }
    }
}

/// A token, where one is attached, that can be read and neither cancelled nor reset.
#[derive(Clone)]
pub struct Watch {
    watched: Option<CancellationToken>,
}

impl Stops for Watch {
    closed spec fn token(&self) -> Option<CancellationToken> {
        self.watched
    }

    fn look(&self, uses: &mut UseLog) -> (b: bool) {
        self.watched.look(uses)
    }

    fn glance(&self) -> (b: bool) {
        self.watched.glance()
    }
}

impl Watch {
    /// A watch over no token.
    pub fn nothing() -> (r: Self)
        ensures
            r.token() is None,
        opens_invariants none
    {
        Watch { watched: None }
    }

    /// A watch over `token`.
    pub fn over(token: CancellationToken) -> (r: Self)
        ensures
            r.token() == Some(token),
        opens_invariants none
    {
        Watch { watched: Some(token) }
    }
}

/// A run that is given a token, or none, is stopped by that token, or by none.
pub proof fn law_a_run_is_stopped_by_its_token(cancel: Option<CancellationToken>)
    ensures
        cancel.token() == cancel,
{
}

} // verus!
