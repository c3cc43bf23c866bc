//! Divide-and-conquer runs over slots.
use crate::builder::applied::{Applied, ApplyLog, slots_between};
use crate::builder::plan::{hybrid_plan, is_hybrid_plan};
use crate::builder::slots::{Slots, all_empty, all_filled, same_outside};
use crate::builder::stage::{FusedStage, FusedTryStage};
use crate::util::{chunk_start, lemma_chunk_ends, lemma_chunk_order};
use vstd::prelude::*;

verus! {

/// A transformation that turns every item into exactly one result.
pub trait RangeOp<T> {
    type Out;

    /// Whether the operation may be applied to `item`.
    spec fn takes(&self, item: T) -> bool;

    /// Whether the operation can turn `item` into `out`.
    spec fn yields(&self, item: T, out: Self::Out) -> bool;

    /// Applies the operation.
    fn apply(&self, item: T) -> (out: Self::Out)
        requires
            self.takes(item),
        ensures
            self.yields(item, out),
    ;
}

/// A plain function as an operation.
pub struct FnMap<F>(pub F);

impl<T, R, F> RangeOp<T> for FnMap<F> where F: Fn(T) -> R {
    type Out = R;

    open spec fn takes(&self, item: T) -> bool {
        self.0.requires((item,))
    }

    open spec fn yields(&self, item: T, out: R) -> bool {
        self.0.ensures((item,), out)
    }

    fn apply(&self, item: T) -> R {
        (self.0)(item)
    }
}

/// A chain without a filter as an operation.
pub struct FusedOp<S>(pub S);

impl<S, T> RangeOp<T> for FusedOp<S> where S: FusedStage<T> {
    type Out = S::Output;

    open spec fn takes(&self, item: T) -> bool {
        !S::MAY_FILTER && self.0.accepts(item)
    }

    open spec fn yields(&self, item: T, out: S::Output) -> bool {
        self.0.outcome(item, Some(out))
    }

    fn apply(&self, item: T) -> S::Output {
        self.0.apply_pure(item)
    }
}

/// The slots of `[start, end)` hold items that the operation takes.
pub open spec fn ready<T, OP: RangeOp<T>>(op: OP, input: Seq<Option<T>>, start: int, end: int) -> bool {
    forall|i: int| start <= i < end ==> (#[trigger] input[i]) is Some && op.takes(input[i]->0)
}

/// The slots of `[start, end)` of `output` hold results of the items that were
/// in the same slots of `input`.
pub open spec fn mapped<T, OP: RangeOp<T>>(
    op: OP,
    input: Seq<Option<T>>,
    output: Seq<Option<OP::Out>>,
    start: int,
    end: int,
) -> bool {
    forall|i: int|
        start <= i < end ==> (#[trigger] output[i]) is Some && op.yields(input[i]->0, output[i]->0)
}

/// Works through `[start, end)` in order: moves each item out of `input` and its
/// result into `output`.
pub fn par_index_leaf<T, OP: RangeOp<T>>(
    input: &mut Slots<T>,
    output: &mut Slots<OP::Out>,
    start: usize,
    end: usize,
    op: &OP,
)
    requires
        start <= end <= old(input)@.len(),
        old(output)@.len() == old(input)@.len(),
        ready(*op, old(input)@, start as int, end as int),
    ensures
        all_empty(final(input)@, start as int, end as int),
        same_outside(old(input)@, final(input)@, start as int, end as int),
        mapped(*op, old(input)@, final(output)@, start as int, end as int),
        same_outside(old(output)@, final(output)@, start as int, end as int),
{
    for i in start..end
        invariant
            start <= i,
            end <= input@.len() == old(input)@.len(),
            output@.len() == input@.len(),
            ready(*op, old(input)@, start as int, end as int),
            all_empty(input@, start as int, i as int),
            same_outside(old(input)@, input@, start as int, i as int),
            mapped(*op, old(input)@, output@, start as int, i as int),
            same_outside(old(output)@, output@, start as int, i as int),
    {
        assert(input@[i as int] == old(input)@[i as int]);
        let item = input.take(i);
        let out = op.apply(item);
        output.put(i, out);
    }
}

/// Works through `[start, end)` by halves, down to `splits_left` levels.
pub fn par_index_rec<T, OP: RangeOp<T>>(
    input: &mut Slots<T>,
    output: &mut Slots<OP::Out>,
    start: usize,
    end: usize,
    op: &OP,
    splits_left: usize,
)
    requires
        start <= end <= old(input)@.len(),
        old(output)@.len() == old(input)@.len(),
        ready(*op, old(input)@, start as int, end as int),
    ensures
        all_empty(final(input)@, start as int, end as int),
        same_outside(old(input)@, final(input)@, start as int, end as int),
        mapped(*op, old(input)@, final(output)@, start as int, end as int),
        same_outside(old(output)@, final(output)@, start as int, end as int),
    decreases splits_left,
{
    if splits_left == 0 || end - start <= 1 {
        par_index_leaf(input, output, start, end, op);
        return;
    }
    let mid: usize = start + (end - start) / 2;
    par_index_rec(input, output, start, mid, op, splits_left - 1);
    let ghost half_in = input@;
    let ghost half_out = output@;
    assert(ready(*op, half_in, mid as int, end as int)) by {
        assert forall|i: int| mid <= i < end implies (#[trigger] half_in[i]) is Some && op.takes(
            half_in[i]->0,
        ) by {
            assert(half_in[i] == old(input)@[i]);
        }
    }
    par_index_rec(input, output, mid, end, op, splits_left - 1);
    proof {
        assert forall|i: int| start <= i < end implies (#[trigger] input@[i]) is None by {
            if i < mid {
                assert(input@[i] == half_in[i]);
            }
        }
        assert forall|i: int| start <= i < end implies (#[trigger] output@[i]) is Some && op.yields(
            old(input)@[i]->0,
            output@[i]->0,
        ) by {
            if i < mid {
                assert(output@[i] == half_out[i]);
            } else {
                assert(half_in[i] == old(input)@[i]);
            }
        }
    }
}

/// Works through all `n` slots, one range of a plan for `num_threads` workers
/// after the other.
pub fn par_index_collect_hybrid<T, OP: RangeOp<T>>(
    input: &mut Slots<T>,
    output: &mut Slots<OP::Out>,
    n: usize,
    op: &OP,
    splits: usize,
    num_threads: usize,
)
    requires
        0 < n == old(input)@.len(),
        old(output)@.len() == n,
        ready(*op, old(input)@, 0, n as int),
    ensures
        final(input)@.len() == n,
        all_empty(final(input)@, 0, n as int),
        final(output)@.len() == n,
        mapped(*op, old(input)@, final(output)@, 0, n as int),
{
    let plan = hybrid_plan(n, num_threads, splits);
    let k: usize = plan.len();
    proof {
        lemma_chunk_ends(n as nat, k as nat);
    }
    for c in 0..k
        invariant
            0 < k == plan@.len(),
            is_hybrid_plan(plan@, n as nat, splits as nat),
            n == input@.len() == output@.len() == old(input)@.len(),
            ready(*op, old(input)@, 0, n as int),
            all_empty(input@, 0, chunk_start(n as nat, k as nat, c as nat) as int),
            same_outside(
                old(input)@,
                input@,
                0,
                chunk_start(n as nat, k as nat, c as nat) as int,
            ),
            mapped(
                *op,
                old(input)@,
                output@,
                0,
                chunk_start(n as nat, k as nat, c as nat) as int,
            ),
    {
        let range = plan[c];
        let ghost before_in = input@;
        let ghost before_out = output@;
        proof {
            lemma_chunk_order(n as nat, k as nat, c as nat, (c + 1) as nat);
            assert forall|i: int| range.start <= i < range.end implies (#[trigger] before_in[i]) is Some
                && op.takes(before_in[i]->0) by {
                assert(before_in[i] == old(input)@[i]);
            }
        }
        par_index_rec(input, output, range.start, range.end, op, range.splits);
        proof {
            assert forall|i: int| 0 <= i < range.end implies (#[trigger] input@[i]) is None by {
                if i < range.start {
                    assert(input@[i] == before_in[i]);
                }
            }
            assert forall|i: int| 0 <= i < range.end implies (#[trigger] output@[i]) is Some
                && op.yields(old(input)@[i]->0, output@[i]->0) by {
                if i < range.start {
                    assert(output@[i] == before_out[i]);
                } else {
                    assert(before_in[i] == old(input)@[i]);
                }
            }
            assert forall|i: int| range.end <= i < n implies #[trigger] input@[i] == old(input)@[i] by {
                assert(input@[i] == before_in[i]);
            }
        }
    }
}

/// Applies the operation to every item and returns the results in item order.
pub fn par_index_collect<T, OP: RangeOp<T>>(
    items: Vec<T>,
    op: &OP,
    splits: usize,
    num_threads: usize,
) -> (r: Vec<OP::Out>)
    requires
        items@.len() > 0,
        forall|i: int| 0 <= i < items@.len() ==> op.takes(#[trigger] items@[i]),
    ensures
        r@.len() == items@.len(),
        forall|i: int| 0 <= i < items@.len() ==> op.yields(items@[i], #[trigger] r@[i]),
{
    let n: usize = items.len();
    let ghost all = items@;
    let mut input = Slots::from_vec(items);
    let mut output: Slots<OP::Out> = Slots::uninit(n);
    par_index_collect_hybrid(&mut input, &mut output, n, op, splits, num_threads);
    assert(all_filled(output@, 0, n as int));
    let ghost slots = output@;
    let r = output.into_vec();
    assert forall|i: int| 0 <= i < all.len() implies op.yields(all[i], #[trigger] r@[i]) by {
        assert(slots[i] is Some);
    }
    r
}

/// A transformation that turns every item into one result or fails on it.
pub trait RangeTryOp<T> {
    type Out;

    type Error;

    /// Whether the operation may be applied to `item`.
    spec fn try_takes(&self, item: T) -> bool;

    /// Whether the operation can turn `item` into `out`.
    spec fn try_yields(&self, item: T, out: Result<Self::Out, Self::Error>) -> bool;

    /// Applies the operation.
    fn try_apply(&self, item: T) -> (out: Result<Self::Out, Self::Error>)
        requires
            self.try_takes(item),
        ensures
            self.try_yields(item, out),
    ;
}

/// A fallible chain without a filter as an operation.
pub struct FusedTryOp<S>(pub S);

impl<S, T> RangeTryOp<T> for FusedTryOp<S> where S: FusedTryStage<T> {
    type Out = S::Output;

    type Error = S::Error;

    open spec fn try_takes(&self, item: T) -> bool {
        !S::MAY_FILTER && self.0.try_accepts(item)
    }

    open spec fn try_yields(&self, item: T, out: Result<S::Output, S::Error>) -> bool {
        match out {
            Ok(o) => self.0.try_outcome(item, Ok(Some(o))),
            Err(e) => self.0.try_outcome(item, Err(e)),
        }
    }

    fn try_apply(&self, item: T) -> Result<S::Output, S::Error> {
        match self.0.try_apply(item) {
            Ok(Some(o)) => Ok(o),
            Ok(None) => vstd::pervasive::unreached(),
            Err(e) => Err(e),
        }
    }
}

/// The slots of `[start, end)` hold items that the operation takes.
pub open spec fn try_ready<T, OP: RangeTryOp<T>>(
    op: OP,
    input: Seq<Option<T>>,
    start: int,
    end: int,
) -> bool {
    forall|i: int| start <= i < end ==> (#[trigger] input[i]) is Some && op.try_takes(input[i]->0)
}

/// The slots of `[start, end)` of `output` hold results of the items that were
/// in the same slots of `input`, none of which failed.
pub open spec fn try_mapped<T, OP: RangeTryOp<T>>(
    op: OP,
    input: Seq<Option<T>>,
    output: Seq<Option<OP::Out>>,
    start: int,
    end: int,
) -> bool {
    forall|i: int|
        start <= i < end ==> (#[trigger] output[i]) is Some && op.try_yields(
            input[i]->0,
            Ok(output[i]->0),
        )
}

/// Whether the operation can succeed on `item`.
pub open spec fn passes<T, OP: RangeTryOp<T>>(op: OP, item: T) -> bool {
    exists|out: OP::Out| #[trigger] op.try_yields(item, Ok(out))
}

/// The item in slot `k` failed with `error`, and those of `[start, k)` passed.
pub open spec fn slot_fails<T, OP: RangeTryOp<T>>(
    op: OP,
    input: Seq<Option<T>>,
    start: int,
    k: int,
    error: OP::Error,
) -> bool {
    &&& op.try_yields(input[k]->0, Err(error))
    &&& forall|i: int| start <= i < k ==> passes(op, (#[trigger] input[i])->0)
}

/// The first failing item of `[start, end)` failed with `error`.
pub open spec fn range_fails<T, OP: RangeTryOp<T>>(
    op: OP,
    input: Seq<Option<T>>,
    start: int,
    end: int,
    error: OP::Error,
) -> bool {
    exists|k: int| start <= k < end && #[trigger] slot_fails(op, input, start, k, error)
}

/// How a fallible run over `[start, end)` leaves `output`: filled throughout, or
/// emptied where an item failed.
pub open spec fn try_resolved<T, OP: RangeTryOp<T>>(
    op: OP,
    input: Seq<Option<T>>,
    output: Seq<Option<OP::Out>>,
    start: int,
    end: int,
    result: Result<(), OP::Error>,
) -> bool {
    match result {
        Ok(_) => try_mapped(op, input, output, start, end),
        Err(e) => all_empty(output, start, end) && range_fails(op, input, start, end, e),
    }
}

/// Works through `[start, end)` in order up to the first failing item, after
/// which the results so far and the items left are dropped.
pub fn par_index_try_leaf<T, OP: RangeTryOp<T>>(
    input: &mut Slots<T>,
    output: &mut Slots<OP::Out>,
    start: usize,
    end: usize,
    op: &OP,
) -> (result: Result<(), OP::Error>)
    requires
        start <= end <= old(input)@.len(),
        old(output)@.len() == old(input)@.len(),
        try_ready(*op, old(input)@, start as int, end as int),
        all_empty(old(output)@, start as int, end as int),
    ensures
        all_empty(final(input)@, start as int, end as int),
        same_outside(old(input)@, final(input)@, start as int, end as int),
        same_outside(old(output)@, final(output)@, start as int, end as int),
        try_resolved(*op, old(input)@, final(output)@, start as int, end as int, result),
{
    let mut log = ApplyLog::new();
    par_index_try_leaf_on_record(input, output, start, end, &Applied::new(op), &mut log)
}

/// The operation was applied to the items of `[start, end)` in order, once each, up to the
/// first that failed, with `error`.
pub open spec fn stopped_at_failure<T, OP: RangeTryOp<T>>(
    op: OP,
    input: Seq<Option<T>>,
    start: int,
    end: int,
    error: OP::Error,
    before: Seq<int>,
    after: Seq<int>,
) -> bool {
    exists|k: int|
        start <= k < end && #[trigger] slot_fails(op, input, start, k, error) && after == before
            + slots_between(start, k + 1)
}

/// A [`par_index_try_leaf`] on record: the operation is applied to the items in order,
/// once each, up to the first that fails, and to none behind that one.
pub fn par_index_try_leaf_on_record<T, OP: RangeTryOp<T>>(
    input: &mut Slots<T>,
    output: &mut Slots<OP::Out>,
    start: usize,
    end: usize,
    op: &Applied<'_, OP>,
    log: &mut ApplyLog,
) -> (result: Result<(), OP::Error>)
    requires
        start <= end <= old(input)@.len(),
        old(output)@.len() == old(input)@.len(),
        try_ready(op.operation(), old(input)@, start as int, end as int),
        all_empty(old(output)@, start as int, end as int),
    ensures
        all_empty(final(input)@, start as int, end as int),
        same_outside(old(input)@, final(input)@, start as int, end as int),
        same_outside(old(output)@, final(output)@, start as int, end as int),
        try_resolved(op.operation(), old(input)@, final(output)@, start as int, end as int, result),
        result is Ok ==> final(log)@ == old(log)@ + slots_between(start as int, end as int),
        result matches Err(e) ==> stopped_at_failure(
            op.operation(),
            old(input)@,
            start as int,
            end as int,
            e,
            old(log)@,
            final(log)@,
        ),
{
    let ghost logged = log@;
    assert(logged + slots_between(start as int, start as int) =~= logged);
    for i in start..end
        invariant
            start <= i,
            end <= input@.len() == old(input)@.len(),
            output@.len() == input@.len(),
            try_ready(op.operation(), old(input)@, start as int, end as int),
            all_empty(old(output)@, start as int, end as int),
            all_empty(input@, start as int, i as int),
            same_outside(old(input)@, input@, start as int, i as int),
            try_mapped(op.operation(), old(input)@, output@, start as int, i as int),
            same_outside(old(output)@, output@, start as int, i as int),
            logged == old(log)@,
            log@ == logged + slots_between(start as int, i as int),
    {
        assert(input@[i as int] == old(input)@[i as int]);
        let item = input.take(i);
        let came = op.apply(i, item, log);
        assert(log@ =~= logged + slots_between(start as int, i + 1));
        match came {
            Ok(out) => {
                output.put(i, out);
            },
            Err(e) => {
                let ghost written = output@;
                output.drop_range(start, i);
                input.drop_range(i + 1, end);
                proof {
                    assert forall|j: int| start <= j < i implies passes(
                        op.operation(),
                        (#[trigger] old(input)@[j])->0,
                    ) by {
                        assert(written[j] is Some);
                        assert(op.operation().try_yields(old(input)@[j]->0, Ok(written[j]->0)));
                    }
                    assert(slot_fails(op.operation(), old(input)@, start as int, i as int, e));
                    assert(log@ == logged + slots_between(start as int, i + 1));
                    assert(stopped_at_failure(
                        op.operation(),
                        old(input)@,
                        start as int,
                        end as int,
                        e,
                        logged,
                        log@,
                    ));
                    assert forall|j: int| start <= j < end implies (#[trigger] output@[j]) is None by {
                        if j >= i {
                            assert(output@[j] == written[j]);
                            assert(written[j] == old(output)@[j]);
                        }
                    }
                }
                return Err(e);
            },
        }
    }
    Ok(())
}

/// Works through `[start, end)` by halves. Both halves are always worked
/// through; where one fails the results of the other are dropped, and the error
/// of the left half comes first.
pub fn par_index_try_rec<T, OP: RangeTryOp<T>>(
    input: &mut Slots<T>,
    output: &mut Slots<OP::Out>,
    start: usize,
    end: usize,
    op: &OP,
    splits_left: usize,
) -> (result: Result<(), OP::Error>)
    requires
        start <= end <= old(input)@.len(),
        old(output)@.len() == old(input)@.len(),
        try_ready(*op, old(input)@, start as int, end as int),
        all_empty(old(output)@, start as int, end as int),
    ensures
        all_empty(final(input)@, start as int, end as int),
        same_outside(old(input)@, final(input)@, start as int, end as int),
        same_outside(old(output)@, final(output)@, start as int, end as int),
        try_resolved(*op, old(input)@, final(output)@, start as int, end as int, result),
    decreases splits_left,
{
    if splits_left == 0 || end - start <= 1 {
        return par_index_try_leaf(input, output, start, end, op);
    }
    let mid: usize = start + (end - start) / 2;
    let ghost in0 = input@;
    let left = par_index_try_rec(input, output, start, mid, op, splits_left - 1);
    let ghost in1 = input@;
    let ghost out1 = output@;
    proof {
        assert forall|i: int| mid <= i < end implies (#[trigger] in1[i]) is Some && op.try_takes(
            in1[i]->0,
        ) by {
            assert(in1[i] == in0[i]);
        }
        assert forall|i: int| mid <= i < end implies (#[trigger] out1[i]) is None by {
            assert(out1[i] == old(output)@[i]);
        }
    }
    let right = par_index_try_rec(input, output, mid, end, op, splits_left - 1);
    let ghost out2 = output@;
    proof {
        assert forall|i: int| start <= i < end implies (#[trigger] input@[i]) is None by {
            if i < mid {
                assert(input@[i] == in1[i]);
            }
        }
        assert forall|i: int| mid <= i < end implies #[trigger] in1[i] == in0[i] by {}
        lemma_try_halves(*op, in0, in1, out1, out2, start as int, mid as int, end as int, left, right);
    }
    match (left, right) {
        (Ok(_), Ok(_)) => Ok(()),
        (Err(e), Ok(_)) => {
            output.drop_range(mid, end);
            proof {
                assert forall|i: int| start <= i < mid implies (#[trigger] output@[i]) is None by {
                    assert(output@[i] == out2[i]);
                    assert(out2[i] == out1[i]);
                }
            }
            Err(e)
        },
        (Ok(_), Err(e)) => {
            output.drop_range(start, mid);
            proof {
                assert forall|i: int| mid <= i < end implies (#[trigger] output@[i]) is None by {
                    assert(output@[i] == out2[i]);
                }
            }
            Err(e)
        },
        (Err(e), Err(_)) => {
            proof {
                assert forall|i: int| start <= i < mid implies (#[trigger] output@[i]) is None by {
                    assert(output@[i] == out1[i]);
                }
            }
            Err(e)
        },
    }
}

/// What two neighbouring ranges come to together.
proof fn lemma_try_halves<T, OP: RangeTryOp<T>>(
    op: OP,
    in0: Seq<Option<T>>,
    in1: Seq<Option<T>>,
    out1: Seq<Option<OP::Out>>,
    out2: Seq<Option<OP::Out>>,
    start: int,
    mid: int,
    end: int,
    left: Result<(), OP::Error>,
    right: Result<(), OP::Error>,
)
    requires
        0 <= start <= mid <= end <= in0.len(),
        in0.len() == in1.len() == out1.len() == out2.len(),
        forall|i: int| mid <= i < end ==> #[trigger] in1[i] == in0[i],
        same_outside(out1, out2, mid, end),
        try_resolved(op, in0, out1, start, mid, left),
        try_resolved(op, in1, out2, mid, end, right),
    ensures
        left is Ok && right is Ok ==> try_mapped(op, in0, out2, start, end),
        left is Err ==> range_fails(op, in0, start, end, left->Err_0),
        left is Ok && right is Err ==> range_fails(op, in0, start, end, right->Err_0),
{
    if left is Err {
        let e = left->Err_0;
        let k = choose|k: int| start <= k < mid && #[trigger] slot_fails(op, in0, start, k, e);
        assert(slot_fails(op, in0, start, k, e));
    } else {
        assert forall|i: int| start <= i < mid implies (#[trigger] out2[i]) is Some && op.try_yields(
            in0[i]->0,
            Ok(out2[i]->0),
        ) && passes(op, in0[i]->0) by {
            assert(out2[i] == out1[i]);
        }
        if right is Err {
            let e = right->Err_0;
            let k = choose|k: int| mid <= k < end && #[trigger] slot_fails(op, in1, mid, k, e);
            assert(in1[k] == in0[k]);
            assert forall|i: int| start <= i < k implies passes(op, (#[trigger] in0[i])->0) by {
                if i < mid {
                    assert(out2[i] is Some);
                } else {
                    assert(passes(op, in1[i]->0));
                }
            }
            assert(slot_fails(op, in0, start, k, e));
        } else {
            assert forall|i: int| start <= i < end implies (#[trigger] out2[i]) is Some
                && op.try_yields(in0[i]->0, Ok(out2[i]->0)) by {
                if i >= mid {
                    assert(in1[i] == in0[i]);
                }
            }
        }
    }
}

/// Applies the operation to the items: all results in item order, or the error
/// of the first item that failed.
pub fn par_index_try_collect<T, OP: RangeTryOp<T>>(
    items: Vec<T>,
    op: &OP,
    splits: usize,
) -> (r: Result<Vec<OP::Out>, OP::Error>)
    requires
        forall|i: int| 0 <= i < items@.len() ==> op.try_takes(#[trigger] items@[i]),
    ensures
        match r {
            Ok(values) => {
                &&& values@.len() == items@.len()
                &&& forall|i: int|
                    0 <= i < items@.len() ==> op.try_yields(items@[i], Ok(#[trigger] values@[i]))
            },
            Err(e) => exists|k: int|
                0 <= k < items@.len() && op.try_yields(#[trigger] items@[k], Err(e)) && forall|
                    j: int,
                |
                    0 <= j < k ==> passes(*op, #[trigger] items@[j]),
        },
{
    let n: usize = items.len();
    let ghost all = items@;
    let mut input = Slots::from_vec(items);
    let ghost slots = input@;
    let mut output: Slots<OP::Out> = Slots::uninit(n);
    match par_index_try_rec(&mut input, &mut output, 0, n, op, splits) {
        Ok(_) => {
            let ghost filled = output@;
            assert(all_filled(filled, 0, n as int));
            let values = output.into_vec();
            assert forall|i: int| 0 <= i < all.len() implies op.try_yields(
                all[i],
                Ok(#[trigger] values@[i]),
            ) by {
                assert(filled[i] is Some);
                assert(slots[i] == Some(all[i]));
            }
            Ok(values)
        },
        Err(e) => {
            proof {
                let k = choose|k: int|
                    0 <= k < n && #[trigger] slot_fails(*op, slots, 0, k, e);
                assert(slots[k] == Some(all[k]));
                assert forall|j: int| 0 <= j < k implies passes(*op, #[trigger] all[j]) by {
                    assert(slots[j] == Some(all[j]));
                    assert(passes(*op, slots[j]->0));
                }
            }
            Err(e)
        },
    }
}

/// Something done with every item for its effect.
pub trait SinkOp<T> {
    /// Whether the operation may be applied to `item`.
    spec fn sinks(&self, item: T) -> bool;

    /// What is known once `item` was consumed.
    spec fn consumed(&self, item: T) -> bool;

    /// Consumes `item`.
    fn consume(&self, item: T)
        requires
            self.sinks(item),
        ensures
            self.consumed(item),
    ;
}

/// A chain followed by a function that takes what the chain lets through.
pub struct FusedSink<S, F>(pub S, pub F);

impl<S, T, F> SinkOp<T> for FusedSink<S, F> where S: FusedStage<T>, F: Fn(S::Output) {
    open spec fn sinks(&self, item: T) -> bool {
        &&& self.0.accepts(item)
        &&& forall|o: S::Output| #[trigger] self.0.outcome(item, Some(o)) ==> self.1.requires((o,))
    }

    open spec fn consumed(&self, item: T) -> bool {
        exists|out: Option<S::Output>| #[trigger]
            self.0.outcome(item, out) && (out matches Some(o) ==> self.1.ensures((o,), ()))
    }

    fn consume(&self, item: T) {
        match self.0.apply(item) {
            Some(o) => {
                (self.1)(o);
                assert(self.0.outcome(item, Some(o)));
            },
            None => {
                assert(self.0.outcome(item, None));
            },
        }
    }
}

/// Consumes the items of `[start, end)` in order.
pub fn par_for_each_leaf<T, OP: SinkOp<T>>(input: &mut Slots<T>, start: usize, end: usize, op: &OP)
    requires
        start <= end <= old(input)@.len(),
        forall|i: int|
            start <= i < end ==> (#[trigger] old(input)@[i]) is Some && op.sinks(old(input)@[i]->0),
    ensures
        all_empty(final(input)@, start as int, end as int),
        same_outside(old(input)@, final(input)@, start as int, end as int),
        forall|i: int| start <= i < end ==> op.consumed((#[trigger] old(input)@[i])->0),
{
    for i in start..end
        invariant
            start <= i,
            end <= input@.len() == old(input)@.len(),
            forall|j: int|
                start <= j < end ==> (#[trigger] old(input)@[j]) is Some && op.sinks(
                    old(input)@[j]->0,
                ),
            all_empty(input@, start as int, i as int),
            same_outside(old(input)@, input@, start as int, i as int),
            forall|j: int| start <= j < i ==> op.consumed((#[trigger] old(input)@[j])->0),
    {
        assert(input@[i as int] == old(input)@[i as int]);
        let item = input.take(i);
        op.consume(item);
    }
}

/// Consumes the items of `[start, end)` by halves, down to `splits_left` levels.
pub fn par_for_each_rec<T, OP: SinkOp<T>>(
    input: &mut Slots<T>,
    start: usize,
    end: usize,
    op: &OP,
    splits_left: usize,
)
    requires
        start <= end <= old(input)@.len(),
        forall|i: int|
            start <= i < end ==> (#[trigger] old(input)@[i]) is Some && op.sinks(old(input)@[i]->0),
    ensures
        all_empty(final(input)@, start as int, end as int),
        same_outside(old(input)@, final(input)@, start as int, end as int),
        forall|i: int| start <= i < end ==> op.consumed((#[trigger] old(input)@[i])->0),
    decreases splits_left,
{
    if splits_left == 0 || end - start <= 1 {
        par_for_each_leaf(input, start, end, op);
        return;
    }
    let mid: usize = start + (end - start) / 2;
    par_for_each_rec(input, start, mid, op, splits_left - 1);
    let ghost half = input@;
    assert forall|i: int| mid <= i < end implies (#[trigger] half[i]) is Some && op.sinks(
        half[i]->0,
    ) by {
        assert(half[i] == old(input)@[i]);
    }
    par_for_each_rec(input, mid, end, op, splits_left - 1);
    proof {
        assert forall|i: int| start <= i < end implies op.consumed(
            (#[trigger] old(input)@[i])->0,
        ) by {
            if i >= mid {
                assert(half[i] == old(input)@[i]);
            }
        }
        assert forall|i: int| start <= i < end implies (#[trigger] input@[i]) is None by {
            if i < mid {
                assert(input@[i] == half[i]);
            }
        }
    }
}

/// Consumes every item.
pub fn par_for_each<T, OP: SinkOp<T>>(items: Vec<T>, op: &OP, splits: usize)
    requires
        forall|i: int| 0 <= i < items@.len() ==> op.sinks(#[trigger] items@[i]),
    ensures
        forall|i: int| 0 <= i < items@.len() ==> op.consumed(#[trigger] items@[i]),
{
    let n: usize = items.len();
    let ghost all = items@;
    let mut input = Slots::from_vec(items);
    let ghost slots = input@;
    par_for_each_rec(&mut input, 0, n, op, splits);
    assert forall|i: int| 0 <= i < all.len() implies op.consumed(#[trigger] all[i]) by {
        assert(slots[i] == Some(all[i]));
        assert(op.consumed(slots[i]->0));
    }
}

/// An application on record that stopped at a failure was made to every item up to the one
/// that failed, in order and once each, and to none behind it.
pub proof fn law_nothing_is_applied_behind_a_failure<T, OP: RangeTryOp<T>>(
    op: OP,
    input: Seq<Option<T>>,
    start: int,
    end: int,
    error: OP::Error,
    before: Seq<int>,
    after: Seq<int>,
)
    requires
        stopped_at_failure(op, input, start, end, error, before, after),
    ensures
        before.len() < after.len() <= before.len() + (end - start),
        before == after.take(before.len() as int),
        forall|j: int| before.len() <= j < after.len() ==> #[trigger] after[j] == start + (j
            - before.len()),
        op.try_yields(input[after.last()]->0, Err(error)),
        forall|i: int| start <= i < after.last() ==> passes(op, (#[trigger] input[i])->0),
{
    let k = choose|k: int|
        start <= k < end && #[trigger] slot_fails(op, input, start, k, error) && after == before
            + slots_between(start, k + 1);
    assert(before =~= after.take(before.len() as int));
    assert(after.last() == k);
}

} // verus!
