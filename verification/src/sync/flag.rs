//! An atomic flag whose uses are on record.
use std::sync::atomic::AtomicBool;
use vstd::prelude::*;

verus! {

/// A use of a flag: the moment of it, and what was stored if it was a store.
pub ghost struct FlagUse {
    pub flag: Flag,
    pub at: nat,
    pub stored: Option<bool>,
}

/// The uses that somebody makes of flags, in order.
pub struct UseLog {
    uses: Ghost<Seq<FlagUse>>,
}

impl View for UseLog {
    type V = Seq<FlagUse>;

    closed spec fn view(&self) -> Seq<FlagUse> {
        self.uses@
    }
}

impl UseLog {
    /// Before any use.
    pub fn new() -> (r: Self)
        ensures
            r@ == Seq::<FlagUse>::empty(),
            recorded(r@),
        opens_invariants [ new_record() ]
    {
        UseLog { uses: Ghost(Seq::empty()) }
    }
}

impl FlagUse {
    /// The use left the flag as it was recorded: at what was stored, or at what was found.
    pub open spec fn holds(self) -> bool {
        match self.stored {
            Some(set) => self.flag.steps(self.at, set),
            None => self.flag.reads(self.at, self.flag.set_after(self.at)),
        }
    }

    /// The use is a reading that finds `set`.
    pub open spec fn found(self, set: bool) -> bool {
        self.stored is None && self.flag.set_after(self.at) == set
    }
}

/// The uses are truly recorded, and a later use of a flag comes at a later moment.
pub open spec fn recorded(uses: Seq<FlagUse>) -> bool {
    &&& forall|i: int| 0 <= i < uses.len() ==> (#[trigger] uses[i]).holds()
    &&& forall|i: int, j: int|
        0 <= i < j < uses.len() && (#[trigger] uses[i]).flag == (#[trigger] uses[j]).flag
            ==> uses[i].at < uses[j].at
}

/// `made` is a use of `flag` that comes later than those on record.
pub open spec fn comes_next(uses: Seq<FlagUse>, flag: Flag, made: FlagUse) -> bool {
    &&& made.flag == flag
    &&& made.holds()
    &&& forall|i: int| 0 <= i < uses.len() && (#[trigger] uses[i]).flag == flag
        ==> uses[i].at < made.at
}

/// A record stays one with a further use.
pub proof fn lemma_recorded_next(uses: Seq<FlagUse>, flag: Flag, made: FlagUse)
    requires
        recorded(uses),
        comes_next(uses, flag, made),
    ensures
        recorded(uses.push(made)),
{
    let all = uses.push(made);
    assert forall|i: int, j: int|
        0 <= i < j < all.len() && (#[trigger] all[i]).flag == (#[trigger] all[j]).flag implies all[i].at
        < all[j].at by {
        assert(all[i] == uses[i]);
        if j < uses.len() {
            assert(all[j] == uses[j]);
        }
    }
}

/// What stands for a change of a flag to `set` in an `opens_invariants` clause. A function
/// makes such a change, itself or through what it calls, only if its clause lists it; one
/// whose clause is `none` changes no flag.
pub open spec fn change_to(set: bool) -> int {
    if set {
        1
    } else {
        0
    }
}

/// What stands for the beginning of a record in an `opens_invariants` clause. A function
/// whose clause does not list it puts every use of a flag on the records that it is given.
pub open spec fn new_record() -> int {
    2
}

/// To set a flag, to clear one and to begin a record are listed apart.
pub proof fn law_changes_are_listed_apart()
    ensures
        change_to(true) != change_to(false),
        change_to(true) != new_record(),
        change_to(false) != new_record(),
{
}

/// An atomic flag, with the states that it goes through from its making on.
///
/// Each use of the flag is a moment: a store goes from any state to the one stored, and a
/// load leaves the state that it finds. Which uses there are is up to all the threads
/// that hold the flag. The states are plain truth values, so nothing that is stored can
/// depend on them.
pub struct Flag {
    cell: AtomicBool,
    states: Ghost<spec_fn(nat) -> bool>,
}

/// `std::sync::atomic::AtomicBool::new`: a flag that is clear, and was not used yet.
#[verifier::external_body]
fn new_flag() -> (r: Flag)
    ensures
        !r.set_after(0),
    opens_invariants none
{
    Flag { cell: AtomicBool::new(false), states: Ghost(vstd::pervasive::arbitrary()) }
}

/// `std::sync::atomic::AtomicBool::store`: one use of the flag, after which it is `set`. It
/// comes later than the uses on record, all of which happened before: uses of one atomic
/// have one order, which agrees with what happens before what. No invariant is opened; the
/// clause makes callers list the change.
#[verifier::external_body]
fn store_flag(flag: &Flag, set: bool, uses: &mut UseLog)
    ensures
        final(uses)@.len() == old(uses)@.len() + 1,
        final(uses)@.drop_last() == old(uses)@,
        final(uses)@.last().stored == Some(set),
        comes_next(old(uses)@, *flag, final(uses)@.last()),
    opens_invariants [ change_to(set) ]
{
    flag.cell.store(set, std::sync::atomic::Ordering::Release);
}

/// `std::sync::atomic::AtomicBool::load`: one use of the flag, which is `b` before it and
/// still after it. It comes later than the uses on record, as a store does.
#[verifier::external_body]
fn load_flag(flag: &Flag, uses: &mut UseLog) -> (b: bool)
    ensures
        final(uses)@.len() == old(uses)@.len() + 1,
        final(uses)@.drop_last() == old(uses)@,
        final(uses)@.last().found(b),
        comes_next(old(uses)@, *flag, final(uses)@.last()),
    opens_invariants none
{
    flag.cell.load(std::sync::atomic::Ordering::Acquire)
}

impl Flag {
    /// Whether the flag is set after it was used `n` times.
    pub closed spec fn set_after(&self, n: nat) -> bool {
        (self.states@)(n)
    }

    /// Use `n` of the flag is a step to `set`.
    pub open spec fn steps(&self, n: nat, set: bool) -> bool {
        self.set_after(n + 1) == set
    }

    /// Use `n` of the flag can be a reading that finds `set`, which it leaves as it is.
    pub open spec fn reads(&self, n: nat, set: bool) -> bool {
        self.set_after(n) == set && self.set_after(n + 1) == set
    }

    /// A flag that is clear.
    pub fn new() -> (r: Self)
        ensures
            !r.set_after(0),
        opens_invariants none
    {
        new_flag()
    }

    /// Sets the flag or clears it. That is the one use made of it.
    pub fn put(&self, set: bool, uses: &mut UseLog) -> (made: Ghost<FlagUse>)
        ensures
            final(uses)@ == old(uses)@.push(made@),
            made@.stored == Some(set),
            comes_next(old(uses)@, *self, made@),
            recorded(old(uses)@) ==> recorded(final(uses)@),
        opens_invariants [ change_to(set) ]
    {
        store_flag(self, set, uses);
        let ghost made = uses@.last();
        proof {
            assert(uses@ =~= old(uses)@.push(made));
            if recorded(old(uses)@) {
                lemma_recorded_next(old(uses)@, *self, made);
            }
        }
        Ghost(made)
    }

    /// Reads the flag. That is the one use made of it.
    pub fn read(&self, uses: &mut UseLog) -> (r: (bool, Ghost<FlagUse>))
        ensures
            final(uses)@ == old(uses)@.push(r.1@),
            r.1@.found(r.0),
            comes_next(old(uses)@, *self, r.1@),
            recorded(old(uses)@) ==> recorded(final(uses)@),
        opens_invariants none
    {
        let b: bool = load_flag(self, uses);
        let ghost made = uses@.last();
        proof {
            assert(uses@ =~= old(uses)@.push(made));
            if recorded(old(uses)@) {
                lemma_recorded_next(old(uses)@, *self, made);
            }
        }
        (b, Ghost(made))
    }
}

/// A use on record is a store, after which the flag is what was stored, or a reading,
/// which finds it as it was and leaves it so; and each comes later than those before it on
/// the record.
pub proof fn law_a_record_is_true(uses: Seq<FlagUse>, i: int, j: int)
    requires
        recorded(uses),
        0 <= i < j < uses.len(),
    ensures
        uses[j].stored matches Some(set) ==> uses[j].flag.set_after(uses[j].at + 1) == set,
        uses[j].stored is None ==> uses[j].flag.set_after(uses[j].at + 1)
            == uses[j].flag.set_after(uses[j].at),
        uses[i].flag == uses[j].flag ==> uses[i].at < uses[j].at,
{
    assert(uses[j].holds());
}

} // verus!
