//! Stages whose calls are on record.
use crate::builder::stream_workers::looked;
use crate::sync::CancellationToken;
use crate::sync::cancel::{
    law_a_run_sees_what_its_readings_find, lemma_looks_bounded, looks, saw_clear, watched,
};
use crate::sync::flag::{FlagUse, UseLog, new_record, recorded};
use crate::sync::watch::Stops;
use vstd::prelude::*;

verus! {

/// Which stage of a run was called.
pub ghost enum Step {
    First,
    Second,
    /// That of a chain with this many stages up to it.
    Nth(nat),
}

impl Step {
    /// How many stages there are up to the one that was called.
    pub open spec fn depth(self) -> nat {
        match self {
            Step::First => 1,
            Step::Second => 2,
            Step::Nth(n) => n,
        }
    }
}

/// Every stage is done before one behind it is called.
pub open spec fn in_stage_order(steps: Seq<Step>) -> bool {
    forall|i: int, j: int|
        0 <= i < j < steps.len() ==> (#[trigger] steps[i]).depth() <= (#[trigger] steps[j]).depth()
}

/// The stages that were called are among the first `n`.
pub open spec fn within_stages(steps: Seq<Step>, n: nat) -> bool {
    forall|i: int| 0 <= i < steps.len() ==> (#[trigger] steps[i]).depth() <= n
}

/// The calls of the stages of a run, in order.
pub struct StepLog {
    steps: Ghost<Seq<Step>>,
}

impl View for StepLog {
    type V = Seq<Step>;

    closed spec fn view(&self) -> Seq<Step> {
        self.steps@
    }
}

/// What a run does: the calls of its stages, and the readings of the token that stops it.
pub struct RunLog {
    pub steps: StepLog,
    pub uses: UseLog,
}

impl View for RunLog {
    type V = Seq<Step>;

    open spec fn view(&self) -> Seq<Step> {
        self.steps@
    }
}

impl RunLog {
    /// Before a run.
    pub fn new() -> (r: Self)
        ensures
            r@ == Seq::<Step>::empty(),
            r.uses@ == Seq::<FlagUse>::empty(),
            recorded(r.uses@),
        opens_invariants [ new_record() ]
    {
        RunLog { steps: StepLog { steps: Ghost(Seq::empty()) }, uses: UseLog::new() }
    }

    /// Whether the run is to stop; records that this was asked.
    pub fn look<C: Stops>(&mut self, cancel: &C) -> (b: bool)
        ensures
            final(self)@ == old(self)@,
            looked(cancel.token(), old(self).uses@, final(self).uses@, b),
        opens_invariants none
    {
        cancel.look(&mut self.uses)
    }
}

/// A stage that cannot be called but on record.
pub struct Logged<F> {
    f: F,
    step: Ghost<Step>,
}

impl<F> Logged<F> {
    /// What is called.
    pub closed spec fn func(&self) -> F {
        self.f
    }

    /// What a call is recorded as.
    pub closed spec fn step(&self) -> Step {
        self.step@
    }

    /// `f` as the first stage of a run.
    pub fn first(f: F) -> (r: Self)
        ensures
            r.func() == f,
            r.step() == Step::First,
    {
        Logged { f, step: Ghost(Step::First) }
    }

    /// `f` as the second stage of a run.
    pub fn second(f: F) -> (r: Self)
        ensures
            r.func() == f,
            r.step() == Step::Second,
    {
        Logged { f, step: Ghost(Step::Second) }
    }

    /// `f` as stage `n` of a chain.
    pub fn nth(f: F, Ghost(n): Ghost<nat>) -> (r: Self)
        ensures
            r.func() == f,
            r.step() == Step::Nth(n),
    {
        Logged { f, step: Ghost(Step::Nth(n)) }
    }

    /// Calls the stage, and records that.
    pub fn call<I, O>(&self, item: I, log: &mut RunLog) -> (out: O) where F: Fn(I) -> O
        requires
            self.func().requires((item,)),
        ensures
            self.func().ensures((item,), out),
            final(log)@ == old(log)@.push(self.step()),
            final(log).uses@ == old(log).uses@,
    {
        let out = (self.f)(item);
        proof {
            log.steps.steps@ = log.steps.steps@.push(self.step@);
        }
        out
    }
}

/// `n` calls of one stage.
pub open spec fn steps_of(step: Step, n: nat) -> Seq<Step> {
    Seq::new(n, |i: int| step)
}

/// How often a stage was called.
pub open spec fn calls(log: Seq<Step>, step: Step) -> nat
    decreases log.len(),
{
    if log.len() == 0 {
        0
    } else {
        calls(log.drop_last(), step) + if log.last() == step {
            1nat
        } else {
            0
        }
    }
}

/// Since `before` the first stage was called `firsts` times and the second `seconds`
/// times.
pub open spec fn advanced(before: Seq<Step>, after: Seq<Step>, firsts: nat, seconds: nat) -> bool {
    &&& before.is_prefix_of(after)
    &&& after.len() == before.len() + firsts + seconds
    &&& calls(after, Step::First) == calls(before, Step::First) + firsts
    &&& calls(after, Step::Second) == calls(before, Step::Second) + seconds
}

/// Where there is a token, a reading found it clear for every call of a stage since.
pub open spec fn looked_first(
    cancel: Option<CancellationToken>,
    steps: Seq<Step>,
    uses: Seq<FlagUse>,
    more_steps: Seq<Step>,
    more_uses: Seq<FlagUse>,
) -> bool {
    cancel is Some ==> more_steps.len() - steps.len() <= looks(more_uses, false) - looks(
        uses,
        false,
    )
}

/// Calls of one stage are called one after the other.
pub proof fn lemma_steps_join(log: Seq<Step>, step: Step, a: nat, b: nat)
    ensures
        log + steps_of(step, a) + steps_of(step, b) == log + steps_of(step, a + b),
        log + steps_of(step, 0) == log,
        (log + steps_of(step, a)).push(step) == log + steps_of(step, a + 1),
{
    assert(log + steps_of(step, a) + steps_of(step, b) =~= log + steps_of(step, a + b));
    assert(log + steps_of(step, 0) =~= log);
    assert((log + steps_of(step, a)).push(step) =~= log + steps_of(step, a + 1));
}

/// Calls of one stage alone.
pub proof fn lemma_advanced_alone(log: Seq<Step>, step: Step, n: nat)
    ensures
        step == Step::First ==> advanced(log, log + steps_of(step, n), n, 0),
        step == Step::Second ==> advanced(log, log + steps_of(step, n), 0, n),
    decreases n,
{
    let after = log + steps_of(step, n);
    if n == 0 {
        assert(after =~= log);
    } else {
        lemma_advanced_alone(log, step, (n - 1) as nat);
        assert(after.drop_last() =~= log + steps_of(step, (n - 1) as nat));
    }
}

/// The next stage of a chain is called once those before it are done.
pub proof fn lemma_next_stage(log: Seq<Step>, mid: Seq<Step>, n: nat, more: nat)
    requires
        log.is_prefix_of(mid),
        in_stage_order(mid.skip(log.len() as int)),
        within_stages(mid.skip(log.len() as int), n),
    ensures
        log.is_prefix_of(mid + steps_of(Step::Nth(n + 1), more)),
        in_stage_order((mid + steps_of(Step::Nth(n + 1), more)).skip(log.len() as int)),
        within_stages((mid + steps_of(Step::Nth(n + 1), more)).skip(log.len() as int), n + 1),
{
    let earlier = mid.skip(log.len() as int);
    let later = steps_of(Step::Nth(n + 1), more);
    let after = mid + later;
    assert(log =~= after.take(log.len() as int));
    assert(after.skip(log.len() as int) =~= earlier + later);
    assert forall|i: int, j: int| 0 <= i < j < (earlier + later).len() implies (#[trigger] (earlier
        + later)[i]).depth() <= (#[trigger] (earlier + later)[j]).depth() by {
        if j < earlier.len() {
            assert(earlier[i].depth() <= earlier[j].depth());
        } else if i < earlier.len() {
            assert(earlier[i].depth() <= n);
        }
    }
    assert forall|i: int| 0 <= i < (earlier + later).len() implies (#[trigger] (earlier
        + later)[i]).depth() <= n + 1 by {
        if i < earlier.len() {
            assert(earlier[i].depth() <= n);
        }
    }
}

/// A stage that was not called before is called as often as it is called next.
pub proof fn lemma_next_stage_calls(earlier: Seq<Step>, n: nat, more: nat)
    requires
        within_stages(earlier, n),
    ensures
        calls(earlier + steps_of(Step::Nth(n + 1), more), Step::Nth(n + 1)) == more,
    decreases earlier.len() + more,
{
    let step = Step::Nth(n + 1);
    let all = earlier + steps_of(step, more);
    if more > 0 {
        lemma_next_stage_calls(earlier, n, (more - 1) as nat);
        assert(all.drop_last() =~= earlier + steps_of(step, (more - 1) as nat));
    } else if earlier.len() > 0 {
        let less = earlier.drop_last();
        assert forall|i: int| 0 <= i < less.len() implies (#[trigger] less[i]).depth() <= n by {
            assert(less[i] == earlier[i]);
        }
        lemma_next_stage_calls(less, n, 0);
        assert(all =~= earlier);
        assert(less + steps_of(step, 0) =~= less);
        assert(earlier[earlier.len() - 1].depth() <= n);
    } else {
        assert(all =~= Seq::empty());
    }
}

/// Calls add up.
pub proof fn lemma_advanced_joins(
    log: Seq<Step>,
    mid: Seq<Step>,
    after: Seq<Step>,
    firsts: nat,
    seconds: nat,
    more_firsts: nat,
    more_seconds: nat,
)
    requires
        advanced(log, mid, firsts, seconds),
        advanced(mid, after, more_firsts, more_seconds),
    ensures
        advanced(log, after, firsts + more_firsts, seconds + more_seconds),
{
    assert forall|i: int| 0 <= i < log.len() implies log[i] == after[i] by {
        assert(log[i] == mid[i]);
        assert(mid[i] == after[i]);
    }
    assert(log =~= after.take(log.len() as int));
}

/// Where the second stage was not called, the first was every time.
pub proof fn lemma_only_firsts(log: Seq<Step>, after: Seq<Step>, n: nat)
    requires
        advanced(log, after, n, 0),
    ensures
        after == log + steps_of(Step::First, n),
    decreases n,
{
    if n == 0 {
        assert(after =~= log);
    } else {
        let prev = after.drop_last();
        assert(log =~= prev.take(log.len() as int));
        lemma_calls_grow(log, prev);
        assert(after.last() == Step::First);
        lemma_only_firsts(log, prev, (n - 1) as nat);
        lemma_steps_join(log, Step::First, (n - 1) as nat, 0);
        assert(after =~= prev.push(Step::First));
    }
}

/// No call is taken back.
proof fn lemma_calls_grow(log: Seq<Step>, after: Seq<Step>)
    requires
        log.is_prefix_of(after),
    ensures
        calls(log, Step::First) <= calls(after, Step::First),
        calls(log, Step::Second) <= calls(after, Step::Second),
        calls(after, Step::First) + calls(after, Step::Second) - calls(log, Step::First) - calls(
            log,
            Step::Second,
        ) <= after.len() - log.len(),
    decreases after.len(),
{
    if log.len() < after.len() {
        let prev = after.drop_last();
        assert(log =~= prev.take(log.len() as int));
        lemma_calls_grow(log, prev);
    } else {
        assert(log =~= after);
    }
}

/// What was called since `log`, counted from none.
pub proof fn lemma_advanced_since(log: Seq<Step>, after: Seq<Step>, firsts: nat, seconds: nat)
    requires
        advanced(log, after, firsts, seconds),
    ensures
        calls(after.skip(log.len() as int), Step::First) == firsts,
        calls(after.skip(log.len() as int), Step::Second) == seconds,
    decreases after.len(),
{
    let added = after.skip(log.len() as int);
    if log.len() < after.len() {
        let prev = after.drop_last();
        assert(log =~= prev.take(log.len() as int));
        lemma_calls_grow(log, prev);
        assert(added.drop_last() =~= prev.skip(log.len() as int));
        assert(added.last() == after.last());
        if after.last() == Step::First {
            lemma_advanced_since(log, prev, (firsts - 1) as nat, seconds);
        } else {
            lemma_advanced_since(log, prev, firsts, (seconds - 1) as nat);
        }
    }
}

/// Every call on record counts once, for its own stage.
pub proof fn law_every_call_counts_once(log: Seq<Step>, made: Step, step: Step)
    ensures
        calls(Seq::<Step>::empty(), step) == 0,
        calls(log.push(made), step) == calls(log, step) + if made == step {
            1int
        } else {
            0
        },
{
    assert(log.push(made).drop_last() =~= log);
}

/// A run of calls of one stage is made of that stage alone.
pub proof fn law_calls_of_one_stage_are_no_others(step: Step, n: nat, i: int)
    requires
        0 <= i < n,
    ensures
        steps_of(step, n).len() == n,
        steps_of(step, n)[i] == step,
{
}

/// For every call of a stage, a run with a token has a reading that found it clear: there
/// are at least as many readings as calls, and no call where every reading found it set.
pub proof fn law_no_stage_is_called_without_a_look(
    token: CancellationToken,
    steps: Seq<Step>,
    uses: Seq<FlagUse>,
    more_steps: Seq<Step>,
    more_uses: Seq<FlagUse>,
)
    requires
        watched(Some(token), uses, more_uses),
        looked_first(Some(token), steps, uses, more_steps, more_uses),
        steps.is_prefix_of(more_steps),
    ensures
        more_steps.len() - steps.len() <= more_uses.len() - uses.len(),
        (forall|i: int|
            uses.len() <= i < more_uses.len() ==> token.set_after((#[trigger] more_uses[i]).at))
            ==> more_steps == steps,
{
    lemma_looks_bounded(uses, more_uses, false);
    if forall|i: int|
        uses.len() <= i < more_uses.len() ==> token.set_after((#[trigger] more_uses[i]).at) {
        law_a_run_sees_what_its_readings_find(Some(token), uses, more_uses);
        assert(!saw_clear(uses, more_uses));
        assert(more_steps =~= steps);
    }
}

/// The stages of a run of two are its first and its second; those of a chain go by how many
/// there are up to each. In stage order no call is followed by one of an earlier stage.
pub proof fn law_stages_are_ordered_by_depth(steps: Seq<Step>, made: Step, n: nat)
    ensures
        Step::First.depth() == 1,
        Step::Second.depth() == 2,
        Step::Nth(n).depth() == n,
        in_stage_order(steps.push(made)) <==> in_stage_order(steps) && forall|i: int|
            0 <= i < steps.len() ==> (#[trigger] steps[i]).depth() <= made.depth(),
        within_stages(steps.push(made), n) <==> within_stages(steps, n) && made.depth() <= n,
{
    let all = steps.push(made);
    if in_stage_order(all) {
        assert forall|i: int, j: int| 0 <= i < j < steps.len() implies (#[trigger] steps[i]).depth()
            <= (#[trigger] steps[j]).depth() by {
            assert(all[i] == steps[i] && all[j] == steps[j]);
        }
        assert forall|i: int| 0 <= i < steps.len() implies (#[trigger] steps[i]).depth()
            <= made.depth() by {
            assert(all[i] == steps[i] && all[steps.len() as int] == made);
        }
    }
    if within_stages(all, n) {
        assert forall|i: int| 0 <= i < steps.len() implies (#[trigger] steps[i]).depth() <= n by {
            assert(all[i] == steps[i]);
        }
        assert(all[steps.len() as int] == made);
    }
}

} // verus!
