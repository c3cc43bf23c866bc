//! Cooperative cancellation.
use crate::sync::flag::{Flag, FlagUse, UseLog, change_to, comes_next, new_record, recorded};
use std::sync::Arc;
use vstd::prelude::*;

verus! {

/// A cancellation flag that can be cloned and shared across threads.
///
/// The flag changes under shared references, from any thread. What a call comes to is
/// stated over the moment at which it uses the flag.
pub struct CancellationToken {
    cancelled: Arc<Flag>,
}

impl Default for CancellationToken {
    fn default() -> (r: Self)
        ensures
            !r.set_after(0),
    {
        CancellationToken::new()
    }
}

impl CancellationToken {
    /// The flag that all clones share.
    pub closed spec fn flag(&self) -> Flag {
        *self.cancelled
    }

    /// Whether the flag is set after it was used `n` times.
    pub open spec fn set_after(&self, n: nat) -> bool {
        self.flag().set_after(n)
    }

    /// Use `n` of the flag is a step to `set`.
    pub open spec fn steps(&self, n: nat, set: bool) -> bool {
        self.flag().steps(n, set)
    }

    /// Use `n` of the flag can be a reading that finds `set`, which it leaves as it is.
    pub open spec fn reads(&self, n: nat, set: bool) -> bool {
        self.flag().reads(n, set)
    }

    /// At some moment a reading finds `set`.
    pub open spec fn found(&self, set: bool) -> bool {
        exists|n: nat| #[trigger] self.reads(n, set)
    }

    /// No reading finds the flag clear: whenever it is, the next use sets it.
    pub open spec fn never_clear(&self) -> bool {
        !self.found(false)
    }

    /// No use of the flag from `from` on and before `to` changes it.
    pub open spec fn rests(&self, from: nat, to: nat) -> bool {
        forall|n: nat|
            from <= n < to ==> #[trigger] self.reads(n, true) || self.reads(n, false)
    }

    /// A token that is not cancelled.
    #[must_use]
    pub fn new() -> (r: Self)
        ensures
            !r.set_after(0),
    {
        CancellationToken { cancelled: Arc::new(Flag::new()) }
    }

    /// Signals cancellation to every clone of the token, and records that. The flag is
    /// changed to nothing else, and not used but on this record.
    pub fn cancel_on_record(&self, uses: &mut UseLog)
        ensures
            exists|made: FlagUse| #[trigger]
                comes_next(old(uses)@, self.flag(), made) && made.stored == Some(true)
                    && final(uses)@ == old(uses)@.push(made),
            recorded(old(uses)@) ==> recorded(final(uses)@),
        opens_invariants [ change_to(true) ]
    {
        let Ghost(_made) = self.cancelled.put(true, uses);
        assert(comes_next(old(uses)@, self.flag(), _made));
    }

    /// Clears the flag, so that the token can be used again, and records that. The flag is
    /// changed to nothing else, and not used but on this record.
    pub fn reset_on_record(&self, uses: &mut UseLog)
        ensures
            exists|made: FlagUse| #[trigger]
                comes_next(old(uses)@, self.flag(), made) && made.stored == Some(false)
                    && final(uses)@ == old(uses)@.push(made),
            recorded(old(uses)@) ==> recorded(final(uses)@),
        opens_invariants [ change_to(false) ]
    {
        let Ghost(_made) = self.cancelled.put(false, uses);
        assert(comes_next(old(uses)@, self.flag(), _made));
    }

    /// Whether cancellation was requested; records that this was asked. The flag is not
    /// changed, and not used but on this record.
    pub fn is_cancelled_on_record(&self, uses: &mut UseLog) -> (b: bool)
        ensures
            exists|made: FlagUse| #[trigger]
                comes_next(old(uses)@, self.flag(), made) && made.found(b) && final(uses)@ == old(
                    uses,
                )@.push(made),
            recorded(old(uses)@) ==> recorded(final(uses)@),
        opens_invariants none
    {
        let (b, Ghost(_made)) = self.cancelled.read(uses);
        assert(comes_next(old(uses)@, self.flag(), _made));
        b
    }

    /// Signals cancellation to every clone of the token. The flag is changed to nothing
    /// else, so whatever the call does last leaves it set.
    pub fn cancel(&self)
        ensures
            exists|n: nat| #[trigger] self.steps(n, true),
        opens_invariants [ change_to(true), new_record() ]
    {
        let mut uses = UseLog::new();
        self.cancel_on_record(&mut uses);
        assert(self.steps(uses@[0].at, true));
    }

    /// Whether cancellation was requested. The flag is not changed.
    #[must_use]
    pub fn is_cancelled(&self) -> (b: bool)
        ensures
            self.found(b),
            self.never_clear() ==> b,
        opens_invariants [ new_record() ]
    {
        let mut uses = UseLog::new();
        let b: bool = self.is_cancelled_on_record(&mut uses);
        assert(self.reads(uses@[0].at, b));
        b
    }

    /// Clears the flag, so that the token can be used again. The flag is changed to nothing
    /// else, so whatever the call does last leaves it clear.
    pub fn reset(&self)
        ensures
            exists|n: nat| #[trigger] self.steps(n, false),
        opens_invariants [ change_to(false), new_record() ]
    {
        let mut uses = UseLog::new();
        self.reset_on_record(&mut uses);
        assert(self.steps(uses@[0].at, false));
    }
}

/// How many of the uses are readings that find `set`.
pub open spec fn looks(uses: Seq<FlagUse>, set: bool) -> nat
    decreases uses.len(),
{
    if uses.len() == 0 {
        0
    } else {
        looks(uses.drop_last(), set) + if uses.last().found(set) {
            1nat
        } else {
            0
        }
    }
}

/// A reading since `before` found the token set.
pub open spec fn saw_set(before: Seq<FlagUse>, after: Seq<FlagUse>) -> bool {
    looks(after, true) > looks(before, true)
}

/// A reading since `before` found the token clear.
pub open spec fn saw_clear(before: Seq<FlagUse>, after: Seq<FlagUse>) -> bool {
    looks(after, false) > looks(before, false)
}

/// There is a token, and no reading since `before` found it clear.
pub open spec fn kept_stopped(
    cancel: Option<CancellationToken>,
    before: Seq<FlagUse>,
    after: Seq<FlagUse>,
) -> bool {
    cancel is Some && !saw_clear(before, after)
}

/// All uses since `before` are readings of the token, and truly recorded.
pub open spec fn watched(
    cancel: Option<CancellationToken>,
    before: Seq<FlagUse>,
    after: Seq<FlagUse>,
) -> bool {
    &&& before.is_prefix_of(after)
    &&& forall|i: int|
        before.len() <= i < after.len() ==> (#[trigger] after[i]).stored is None && after[i].holds()
            && (cancel matches Some(token) && after[i].flag == token.flag())
    &&& looks(before, true) <= looks(after, true)
    &&& looks(before, false) <= looks(after, false)
    &&& recorded(before) ==> recorded(after)
}

/// There is a token, it was cancelled by one of the uses on record, and from then on it
/// is set for good.
pub open spec fn cancelled_for_good(
    cancel: Option<CancellationToken>,
    uses: Seq<FlagUse>,
) -> bool {
    cancel matches Some(token) && recorded(uses) && exists|i: int|
        0 <= i < uses.len() && (#[trigger] uses[i]).flag == token.flag() && uses[i].stored == Some(
            true,
        ) && forall|n: nat| n > uses[i].at ==> #[trigger] token.set_after(n)
}

/// Watching nothing.
pub proof fn lemma_watched_nothing(cancel: Option<CancellationToken>, uses: Seq<FlagUse>)
    ensures
        watched(cancel, uses, uses),
{
}

/// Watching goes on.
pub proof fn lemma_watched_joins(
    cancel: Option<CancellationToken>,
    before: Seq<FlagUse>,
    mid: Seq<FlagUse>,
    after: Seq<FlagUse>,
)
    requires
        watched(cancel, before, mid),
        watched(cancel, mid, after),
    ensures
        watched(cancel, before, after),
{
    assert forall|i: int| before.len() <= i < after.len() implies (#[trigger] after[i]).stored is None
        && after[i].holds() && (cancel matches Some(token) && after[i].flag == token.flag()) by {
        if i < mid.len() {
            assert(mid[i] == after[i]);
        }
    }
    assert forall|i: int| 0 <= i < before.len() implies before[i] == after[i] by {
        assert(before[i] == mid[i]);
        assert(mid[i] == after[i]);
    }
    assert(before =~= after.take(before.len() as int));
}

/// What was seen while watching is what the token was at some moment.
pub proof fn lemma_seen(
    cancel: Option<CancellationToken>,
    before: Seq<FlagUse>,
    after: Seq<FlagUse>,
)
    requires
        watched(cancel, before, after),
    ensures
        saw_set(before, after) ==> signalled(cancel),
        saw_clear(before, after) ==> !stopped(cancel),
    decreases after.len(),
{
    if before.len() < after.len() {
        let prev = after.drop_last();
        let last = after.last();
        assert(after[after.len() - 1] == last);
        assert(before =~= prev.take(before.len() as int));
        assert forall|i: int| before.len() <= i < prev.len() implies (#[trigger] prev[i]).stored is None
            && prev[i].holds() && (cancel matches Some(token) && prev[i].flag == token.flag()) by {
            assert(prev[i] == after[i]);
        }
        lemma_looks_grow(before, prev);
        if recorded(before) {
            assert(recorded(prev)) by {
                assert forall|i: int| 0 <= i < prev.len() implies (#[trigger] prev[i]).holds() by {
                    assert(prev[i] == after[i]);
                }
                assert forall|i: int, j: int|
                    0 <= i < j < prev.len() && (#[trigger] prev[i]).flag == (#[trigger] prev[j]).flag
                        implies prev[i].at < prev[j].at by {
                    assert(prev[i] == after[i] && prev[j] == after[j]);
                }
            }
        }
        lemma_seen(cancel, before, prev);
        let token = cancel->0;
        assert(token.reads(last.at, last.flag.set_after(last.at)));
    } else {
        assert(before =~= after);
    }
}

/// No reading is taken back.
proof fn lemma_looks_grow(before: Seq<FlagUse>, after: Seq<FlagUse>)
    requires
        before.is_prefix_of(after),
    ensures
        looks(before, true) <= looks(after, true),
        looks(before, false) <= looks(after, false),
    decreases after.len(),
{
    if before.len() < after.len() {
        let prev = after.drop_last();
        assert(before =~= prev.take(before.len() as int));
        lemma_looks_grow(before, prev);
    } else {
        assert(before =~= after);
    }
}

/// A token that was cancelled and is not reset is found set by every later reading, on
/// the token and on every clone.
pub proof fn law_cancelled_for_good_is_never_clear(
    cancel: Option<CancellationToken>,
    before: Seq<FlagUse>,
    after: Seq<FlagUse>,
)
    requires
        cancelled_for_good(cancel, before),
        watched(cancel, before, after),
    ensures
        kept_stopped(cancel, before, after),
{
    let token = cancel->0;
    let i = choose|i: int|
        0 <= i < before.len() && (#[trigger] before[i]).flag == token.flag() && before[i].stored
            == Some(true) && forall|n: nat| n > before[i].at ==> #[trigger] token.set_after(n);
    assert(before[i] == after[i]);
    lemma_no_clear_look(token, before, after, i);
}

/// No reading from the end of `before` on finds a token clear that use `i` set for good.
proof fn lemma_no_clear_look(
    token: CancellationToken,
    before: Seq<FlagUse>,
    after: Seq<FlagUse>,
    i: int,
)
    requires
        before.is_prefix_of(after),
        recorded(after),
        0 <= i < before.len(),
        after[i].flag == token.flag(),
        forall|n: nat| n > after[i].at ==> #[trigger] token.set_after(n),
        forall|j: int|
            before.len() <= j < after.len() ==> (#[trigger] after[j]).flag == token.flag(),
    ensures
        looks(after, false) == looks(before, false),
    decreases after.len(),
{
    if before.len() < after.len() {
        let prev = after.drop_last();
        let last = after[after.len() - 1];
        assert(before =~= prev.take(before.len() as int));
        assert forall|j: int| 0 <= j < prev.len() implies prev[j] == after[j] by {}
        assert(recorded(prev)) by {
            assert forall|j: int| 0 <= j < prev.len() implies (#[trigger] prev[j]).holds() by {
                assert(prev[j] == after[j]);
            }
            assert forall|j: int, k: int|
                0 <= j < k < prev.len() && (#[trigger] prev[j]).flag == (#[trigger] prev[k]).flag
                    implies prev[j].at < prev[k].at by {
                assert(prev[j] == after[j] && prev[k] == after[k]);
            }
        }
        assert forall|j: int| before.len() <= j < prev.len() implies (#[trigger] prev[j]).flag
            == token.flag() by {
            assert(prev[j] == after[j]);
        }
        lemma_no_clear_look(token, before, prev, i);
        assert(after[i].at < last.at);
        assert(token.set_after(last.at));
    } else {
        assert(before =~= after);
    }
}

/// On record, a reading finds what the last step before it put, on the token and on every
/// clone of it: `true` after `cancel`, `false` after `reset`, unless another thread
/// changed it in between.
pub proof fn law_a_later_call_finds_the_last_step(
    token: CancellationToken,
    clone: CancellationToken,
    uses: Seq<FlagUse>,
    step: int,
    set: bool,
    reading: int,
    b: bool,
)
    requires
        clone.flag() == token.flag(),
        recorded(uses),
        0 <= step < reading < uses.len(),
        uses[step].flag == token.flag(),
        uses[step].stored == Some(set),
        uses[reading].flag == clone.flag(),
        uses[reading].found(b),
        token.rests(uses[step].at + 1, uses[reading].at),
    ensures
        b == set,
{
    assert(uses[step].holds() && uses[reading].holds());
    law_a_reading_finds_the_last_step(
        token,
        clone,
        uses[step].at,
        set,
        uses[reading].at,
        b,
    );
}

/// A reading finds what the last step before it put, on the token and on every clone of
/// it: `true` after `cancel`, `false` after `reset`.
pub proof fn law_a_reading_finds_the_last_step(
    token: CancellationToken,
    clone: CancellationToken,
    step: nat,
    set: bool,
    reading: nat,
    b: bool,
)
    requires
        clone.flag() == token.flag(),
        token.steps(step, set),
        step < reading,
        token.rests(step + 1, reading),
        clone.reads(reading, b),
    ensures
        b == set,
    decreases reading,
{
    if reading > step + 1 {
        let before = (reading - 1) as nat;
        assert(token.reads(before, true) || token.reads(before, false));
        assert(token.rests(step + 1, before));
        law_a_reading_finds_the_last_step(token, clone, step, set, before, b);
    }
}

/// A reading of a token that was never used but by readings finds it clear.
pub proof fn law_an_unused_token_is_clear(token: CancellationToken, reading: nat, b: bool)
    requires
        !token.set_after(0),
        token.rests(0, reading),
        token.reads(reading, b),
    ensures
        !b,
    decreases reading,
{
    if reading > 0 {
        let before = (reading - 1) as nat;
        assert(token.reads(before, true) || token.reads(before, false));
        assert(token.rests(0, before));
        law_an_unused_token_is_clear(token, before, b);
    }
}

/// A token whose flag is set from its first use on is never found clear.
pub proof fn law_a_set_token_is_never_clear(token: CancellationToken)
    requires
        forall|n: nat| n > 0 ==> #[trigger] token.set_after(n),
    ensures
        token.never_clear(),
{
    assert forall|n: nat| !#[trigger] token.reads(n, false) by {
        assert(token.set_after(n + 1));
    }
}

/// There is a token, and at some moment a reading finds it set.
pub open spec fn signalled(cancel: Option<CancellationToken>) -> bool {
    cancel matches Some(token) && token.found(true)
}

/// There is a token, and no reading finds it clear.
pub open spec fn stopped(cancel: Option<CancellationToken>) -> bool {
    cancel matches Some(token) && token.never_clear()
}

/// What a run saw of its token is what its readings found: it saw the token set if one of
/// them found it so, and clear if one of them did.
pub proof fn law_a_run_sees_what_its_readings_find(
    cancel: Option<CancellationToken>,
    before: Seq<FlagUse>,
    after: Seq<FlagUse>,
)
    requires
        watched(cancel, before, after),
    ensures
        saw_set(before, after) <==> exists|i: int|
            before.len() <= i < after.len() && (#[trigger] after[i]).flag.set_after(after[i].at),
        saw_clear(before, after) <==> exists|i: int|
            before.len() <= i < after.len() && !(#[trigger] after[i]).flag.set_after(after[i].at),
        kept_stopped(cancel, before, after) <==> cancel is Some && forall|i: int|
            before.len() <= i < after.len() ==> (#[trigger] after[i]).flag.set_after(after[i].at),
{
    lemma_looks_found(before, after);
}

proof fn lemma_looks_found(before: Seq<FlagUse>, after: Seq<FlagUse>)
    requires
        before.is_prefix_of(after),
        forall|i: int| before.len() <= i < after.len() ==> (#[trigger] after[i]).stored is None,
    ensures
        saw_set(before, after) <==> exists|i: int|
            before.len() <= i < after.len() && (#[trigger] after[i]).flag.set_after(after[i].at),
        saw_clear(before, after) <==> exists|i: int|
            before.len() <= i < after.len() && !(#[trigger] after[i]).flag.set_after(after[i].at),
    decreases after.len(),
{
    if before.len() < after.len() {
        let prev = after.drop_last();
        let last = after.len() - 1;
        assert(before =~= prev.take(before.len() as int));
        assert forall|i: int| before.len() <= i < prev.len() implies (#[trigger] prev[i]).stored is None by {
            assert(prev[i] == after[i]);
        }
        lemma_looks_found(before, prev);
        lemma_looks_grow(before, prev);
        if saw_set(before, prev) {
            let i = choose|i: int|
                before.len() <= i < prev.len() && (#[trigger] prev[i]).flag.set_after(prev[i].at);
            assert(after[i] == prev[i]);
        }
        if saw_clear(before, prev) {
            let i = choose|i: int|
                before.len() <= i < prev.len() && !(#[trigger] prev[i]).flag.set_after(prev[i].at);
            assert(after[i] == prev[i]);
        }
        if exists|i: int|
            before.len() <= i < after.len() && (#[trigger] after[i]).flag.set_after(after[i].at) {
            let i = choose|i: int|
                before.len() <= i < after.len() && (#[trigger] after[i]).flag.set_after(
                    after[i].at,
                );
            if i < last {
                assert(prev[i] == after[i]);
            }
        }
        if exists|i: int|
            before.len() <= i < after.len() && !(#[trigger] after[i]).flag.set_after(after[i].at) {
            let i = choose|i: int|
                before.len() <= i < after.len() && !(#[trigger] after[i]).flag.set_after(
                    after[i].at,
                );
            if i < last {
                assert(prev[i] == after[i]);
            }
        }
    } else {
        assert(before =~= after);
    }
}

/// A run only reads its token: everything that it adds to its record is a reading of that
/// token, which leaves the flag as it finds it; without a token it adds nothing.
pub proof fn law_a_run_changes_no_token(
    cancel: Option<CancellationToken>,
    before: Seq<FlagUse>,
    after: Seq<FlagUse>,
    i: int,
)
    requires
        watched(cancel, before, after),
        before.len() <= i < after.len(),
    ensures
        cancel is Some,
        after[i].flag == cancel->0.flag(),
        after[i].stored is None,
        cancel->0.set_after(after[i].at + 1) == cancel->0.set_after(after[i].at),
        after.take(before.len() as int) == before,
{
    assert(after[i].holds());
    assert(after.take(before.len() as int) =~= before);
}

/// A run is stopped by somebody else: if its token is clear at some moment, the run begins
/// after that, and from then on nobody sets the token, then no reading of the run finds it
/// set. So the run is complete.
pub proof fn law_a_token_that_nobody_sets_stops_no_run(
    token: CancellationToken,
    before: Seq<FlagUse>,
    after: Seq<FlagUse>,
    from: nat,
)
    requires
        watched(Some(token), before, after),
        !token.set_after(from),
        forall|i: int| before.len() <= i < after.len() ==> from <= (#[trigger] after[i]).at,
        forall|n: nat|
            from <= n && !token.set_after(n) ==> !#[trigger] token.set_after((n + 1) as nat),
    ensures
        !saw_set(before, after),
{
    law_a_run_sees_what_its_readings_find(Some(token), before, after);
    assert forall|i: int| before.len() <= i < after.len() implies !(#[trigger] after[
        i
    ]).flag.set_after(after[i].at) by {
        lemma_stays_clear(token, from, after[i].at);
    }
}

proof fn lemma_stays_clear(token: CancellationToken, from: nat, n: nat)
    requires
        from <= n,
        !token.set_after(from),
        forall|k: nat|
            from <= k && !token.set_after(k) ==> !#[trigger] token.set_after((k + 1) as nat),
    ensures
        !token.set_after(n),
    decreases n,
{
    if from < n {
        let k = (n - 1) as nat;
        lemma_stays_clear(token, from, k);
        assert(!token.set_after((k + 1) as nat));
    }
}

/// A token can be seen set if it stays set over some use, and clear if it stays clear over
/// some use. One that is new and that nobody ever sets is not seen set.
pub proof fn law_only_a_token_that_is_set_is_seen_set(token: CancellationToken)
    ensures
        signalled(Some(token)) <==> exists|n: nat|
            #[trigger] token.set_after(n) && token.set_after(n + 1),
        stopped(Some(token)) <==> forall|n: nat|
            #[trigger] token.set_after(n) || token.set_after(n + 1),
        !signalled(None),
        !stopped(None),
        (forall|n: nat| !#[trigger] token.set_after(n)) ==> !signalled(Some(token)),
{
    if signalled(Some(token)) {
        let n = choose|n: nat| #[trigger] token.reads(n, true);
        assert(token.set_after(n) && token.set_after(n + 1));
    }
    if exists|n: nat| #[trigger] token.set_after(n) && token.set_after(n + 1) {
        let n = choose|n: nat| #[trigger] token.set_after(n) && token.set_after(n + 1);
        assert(token.reads(n, true));
    }
    if stopped(Some(token)) {
        assert forall|n: nat| #[trigger] token.set_after(n) || token.set_after(n + 1) by {
            assert(!token.reads(n, false));
        }
    }
    if forall|n: nat| #[trigger] token.set_after(n) || token.set_after(n + 1) {
        assert forall|n: nat| !#[trigger] token.reads(n, false) by {
            assert(token.set_after(n) || token.set_after(n + 1));
        }
    }
}

impl Clone for CancellationToken {
    fn clone(&self) -> (r: Self)
        ensures
            r.flag() == self.flag(),
            r == *self,
    {
        CancellationToken { cancelled: self.cancelled.clone() }
    }
}

/// Every reading on record counts once, for what it found; a store counts for nothing.
pub proof fn law_every_reading_counts_once(uses: Seq<FlagUse>, made: FlagUse, set: bool)
    ensures
        looks(Seq::<FlagUse>::empty(), set) == 0,
        looks(uses.push(made), set) == looks(uses, set) + if made.stored is None
            && made.flag.set_after(made.at) == set {
            1int
        } else {
            0
        },
{
    assert(uses.push(made).drop_last() =~= uses);
}

/// There are no more readings that found one thing than there are uses.
pub proof fn lemma_looks_bounded(before: Seq<FlagUse>, after: Seq<FlagUse>, set: bool)
    requires
        before.is_prefix_of(after),
    ensures
        looks(after, set) - looks(before, set) <= after.len() - before.len(),
    decreases after.len(),
{
    if before.len() < after.len() {
        let prev = after.drop_last();
        assert(before =~= prev.take(before.len() as int));
        lemma_looks_bounded(before, prev, set);
    } else {
        assert(before =~= after);
    }
}

/// A token that a use on record set, and that nobody clears from then on, is cancelled for
/// good.
pub proof fn law_a_token_that_nobody_clears_is_cancelled_for_good(
    token: CancellationToken,
    uses: Seq<FlagUse>,
    i: int,
)
    requires
        recorded(uses),
        0 <= i < uses.len(),
        uses[i].flag == token.flag(),
        uses[i].stored == Some(true),
        forall|n: nat|
            n > uses[i].at && token.set_after(n) ==> #[trigger] token.set_after((n + 1) as nat),
    ensures
        cancelled_for_good(Some(token), uses),
{
    assert(uses[i].holds());
    assert forall|n: nat| n > uses[i].at implies #[trigger] token.set_after(n) by {
        lemma_stays_set(token, uses[i].at + 1, n);
    }
}

proof fn lemma_stays_set(token: CancellationToken, from: nat, n: nat)
    requires
        from <= n,
        token.set_after(from),
        forall|k: nat|
            from <= k && token.set_after(k) ==> #[trigger] token.set_after((k + 1) as nat),
    ensures
        token.set_after(n),
    decreases n,
{
    if from < n {
        let k = (n - 1) as nat;
        lemma_stays_set(token, from, k);
        assert(token.set_after((k + 1) as nat));
    }
}

} // verus!
