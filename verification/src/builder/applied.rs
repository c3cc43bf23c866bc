//! Fallible operations whose applications are on record.
use crate::builder::engine::RangeTryOp;
use vstd::prelude::*;

verus! {

/// The slots whose items an operation was applied to, in order.
pub struct ApplyLog {
    slots: Ghost<Seq<int>>,
}

impl View for ApplyLog {
    type V = Seq<int>;

    closed spec fn view(&self) -> Seq<int> {
        self.slots@
    }
}

impl ApplyLog {
    /// Before any application.
    pub fn new() -> (r: Self)
        ensures
            r@ == Seq::<int>::empty(),
    {
        ApplyLog { slots: Ghost(Seq::empty()) }
    }
}

/// The slots `[start, end)`, in order.
pub open spec fn slots_between(start: int, end: int) -> Seq<int> {
    Seq::new((end - start) as nat, |i: int| start + i)
}

/// An operation that cannot be applied but on record.
pub struct Applied<'a, OP> {
    op: &'a OP,
}

impl<'a, OP> Applied<'a, OP> {
    /// What is applied.
    pub closed spec fn operation(&self) -> OP {
        *self.op
    }

    /// `op`, to be applied on record.
    pub fn new(op: &'a OP) -> (r: Self)
        ensures
            r.operation() == *op,
    {
        Applied { op }
    }

    /// Applies the operation to the item of `slot`, and records that.
    pub fn apply<T>(&self, slot: usize, item: T, log: &mut ApplyLog) -> (out: Result<
        OP::Out,
        OP::Error,
    >) where OP: RangeTryOp<T>
        requires
            self.operation().try_takes(item),
        ensures
            self.operation().try_yields(item, out),
            final(log)@ == old(log)@.push(slot as int),
    {
        let out = self.op.try_apply(item);
        proof {
            log.slots@ = log.slots@.push(slot as int);
        }
        out
    }
}

} // verus!
