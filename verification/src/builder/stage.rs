//! Stages of a pipeline, and what a chain of them makes of one item.
use std::marker::PhantomData;
use vstd::prelude::*;

verus! {

/// Maps the input type of a stage to its output type.
pub trait StageMarker<Input> {
    type Output;
}

/// Passes items through unchanged.
#[derive(Clone, Copy)]
pub struct Identity;

/// Applies `f` to what the stages before it let through.
pub struct SyncMap<Prev, F> {
    pub prev: Prev,
    pub f: F,
}

/// Keeps the items for which `f` holds.
pub struct Filter<Prev, F> {
    pub prev: Prev,
    pub f: F,
}

/// Applies the fallible `f`; its error ends the chain.
pub struct TryMap<Prev, F> {
    pub prev: Prev,
    pub f: F,
}

/// A materialisation boundary of a streaming pipeline. In a fused chain items
/// pass through it.
pub struct Fence<Prev> {
    pub prev: Prev,
    pub chunk_size: Option<usize>,
}

/// Asks for output in input order. A fused chain keeps the order anyway.
pub struct Ordered<Prev> {
    pub prev: Prev,
}

/// An infallible chain as the start of a fallible one with errors of type `E`.
pub struct InfallibleChain<S, E>(pub S, pub PhantomData<E>);

/// Converts the errors of a fallible chain with `f`.
pub struct MapErr<Prev, F> {
    pub prev: Prev,
    pub f: F,
}

impl<Prev: Clone, F: Clone> Clone for SyncMap<Prev, F> {
    fn clone(&self) -> (r: Self)
        ensures
            cloned(self.prev, r.prev),
            cloned(self.f, r.f),
    {
        SyncMap { prev: self.prev.clone(), f: self.f.clone() }
    }
}

impl<Prev: Clone, F: Clone> Clone for Filter<Prev, F> {
    fn clone(&self) -> (r: Self)
        ensures
            cloned(self.prev, r.prev),
            cloned(self.f, r.f),
    {
        Filter { prev: self.prev.clone(), f: self.f.clone() }
    }
}

impl<Prev: Clone, F: Clone> Clone for TryMap<Prev, F> {
    fn clone(&self) -> (r: Self)
        ensures
            cloned(self.prev, r.prev),
            cloned(self.f, r.f),
    {
        TryMap { prev: self.prev.clone(), f: self.f.clone() }
    }
}

impl<Prev: Clone, F: Clone> Clone for MapErr<Prev, F> {
    fn clone(&self) -> (r: Self)
        ensures
            cloned(self.prev, r.prev),
            cloned(self.f, r.f),
    {
        MapErr { prev: self.prev.clone(), f: self.f.clone() }
    }
}

impl<Prev: Clone> Clone for Fence<Prev> {
    fn clone(&self) -> (r: Self)
        ensures
            cloned(self.prev, r.prev),
            r.chunk_size == self.chunk_size,
    {
        Fence { prev: self.prev.clone(), chunk_size: self.chunk_size }
    }
}

impl<Prev: Clone> Clone for Ordered<Prev> {
    fn clone(&self) -> (r: Self)
        ensures
            cloned(self.prev, r.prev),
    {
        Ordered { prev: self.prev.clone() }
    }
}

impl<S: Clone, E> Clone for InfallibleChain<S, E> {
    fn clone(&self) -> (r: Self)
        ensures
            cloned(self.0, r.0),
    {
        InfallibleChain(self.0.clone(), PhantomData)
    }
}

impl<T> StageMarker<T> for Identity {
    type Output = T;
}

impl<Prev, F, I, O> StageMarker<I> for SyncMap<Prev, F> where
    Prev: StageMarker<I>,
    F: Fn(Prev::Output) -> O,
 {
    type Output = O;
}

impl<Prev, F, I> StageMarker<I> for Filter<Prev, F> where
    Prev: StageMarker<I>,
    F: Fn(&Prev::Output) -> bool,
 {
    type Output = Prev::Output;
}

impl<Prev, F, I, O, E> StageMarker<I> for TryMap<Prev, F> where
    Prev: StageMarker<I>,
    F: Fn(Prev::Output) -> Result<O, E>,
 {
    type Output = O;
}

impl<Prev, I> StageMarker<I> for Fence<Prev> where Prev: StageMarker<I> {
    type Output = Prev::Output;
}

impl<Prev, I> StageMarker<I> for Ordered<Prev> where Prev: StageMarker<I> {
    type Output = Prev::Output;
}

impl<S, T, E> StageMarker<T> for InfallibleChain<S, E> where S: StageMarker<T> {
    type Output = S::Output;
}

impl<Prev, F, I> StageMarker<I> for MapErr<Prev, F> where Prev: StageMarker<I> {
    type Output = Prev::Output;
}

/// A chain of stages applied to an item in one pass.
pub trait FusedStage<T> {
    type Output;

    /// Whether the chain holds a filter. Without one every item comes out.
    const MAY_FILTER: bool = false;

    /// Whether every stage may be called on what reaches it from `item`.
    spec fn accepts(&self, item: T) -> bool;

    /// Whether the chain can turn `item` into `out`; `None` is a dropped item.
    spec fn outcome(&self, item: T, out: Option<Self::Output>) -> bool;

    /// A chain without a filter drops no item.
    proof fn never_drops(&self, item: T)
        ensures
            !Self::MAY_FILTER ==> !self.outcome(item, None),
    ;

    /// Applies the chain; a filter may drop the item.
    fn apply(&self, item: T) -> (out: Option<Self::Output>)
        requires
            self.accepts(item),
        ensures
            self.outcome(item, out),
            !Self::MAY_FILTER ==> out is Some,
    ;

    /// Applies a chain without a filter.
    fn apply_pure(&self, item: T) -> (out: Self::Output)
        requires
            self.accepts(item),
            !Self::MAY_FILTER,
        ensures
            self.outcome(item, Some(out)),
    {
        match self.apply(item) {
            Some(v) => v,
            None => vstd::pervasive::unreached(),
        }
    }
}

impl<T> FusedStage<T> for Identity {
    type Output = T;

    open spec fn accepts(&self, item: T) -> bool {
        true
    }

    open spec fn outcome(&self, item: T, out: Option<T>) -> bool {
        out == Some(item)
    }

    proof fn never_drops(&self, item: T) {
    }

    fn apply(&self, item: T) -> Option<T> {
        Some(item)
    }

    fn apply_pure(&self, item: T) -> T {
        item
    }
}

impl<Prev, F, I, O> FusedStage<I> for SyncMap<Prev, F> where
    Prev: FusedStage<I>,
    F: Fn(Prev::Output) -> O,
 {
    type Output = O;

    const MAY_FILTER: bool = Prev::MAY_FILTER;

    open spec fn accepts(&self, item: I) -> bool {
        &&& self.prev.accepts(item)
        &&& forall|v: Prev::Output| #[trigger]
            self.prev.outcome(item, Some(v)) ==> self.f.requires((v,))
    }

    open spec fn outcome(&self, item: I, out: Option<O>) -> bool {
        match out {
            Some(o) => exists|v: Prev::Output| #[trigger]
                self.prev.outcome(item, Some(v)) && self.f.ensures((v,), o),
            None => self.prev.outcome(item, None),
        }
    }

    proof fn never_drops(&self, item: I) {
        self.prev.never_drops(item);
    }

    fn apply(&self, item: I) -> Option<O> {
        match self.prev.apply(item) {
            Some(v) => Some((self.f)(v)),
            None => None,
        }
    }

    fn apply_pure(&self, item: I) -> O {
        let v = self.prev.apply_pure(item);
        (self.f)(v)
    }
}

impl<Prev, F, I> FusedStage<I> for Filter<Prev, F> where
    Prev: FusedStage<I>,
    F: Fn(&Prev::Output) -> bool,
 {
    type Output = Prev::Output;

    const MAY_FILTER: bool = true;

    open spec fn accepts(&self, item: I) -> bool {
        &&& self.prev.accepts(item)
        &&& forall|v: Prev::Output| #[trigger]
            self.prev.outcome(item, Some(v)) ==> self.f.requires((&v,))
    }

    open spec fn outcome(&self, item: I, out: Option<Prev::Output>) -> bool {
        match out {
            Some(v) => self.prev.outcome(item, Some(v)) && self.f.ensures((&v,), true),
            None => self.prev.outcome(item, None) || exists|v: Prev::Output| #[trigger]
                self.prev.outcome(item, Some(v)) && self.f.ensures((&v,), false),
        }
    }

    proof fn never_drops(&self, item: I) {
    }

    fn apply(&self, item: I) -> Option<Prev::Output> {
        match self.prev.apply(item) {
            Some(v) => if (self.f)(&v) {
                Some(v)
            } else {
                None
            },
            None => None,
        }
    }
}

impl<Prev, I> FusedStage<I> for Fence<Prev> where Prev: FusedStage<I> {
    type Output = Prev::Output;

    const MAY_FILTER: bool = Prev::MAY_FILTER;

    open spec fn accepts(&self, item: I) -> bool {
        self.prev.accepts(item)
    }

    open spec fn outcome(&self, item: I, out: Option<Prev::Output>) -> bool {
        self.prev.outcome(item, out)
    }

    proof fn never_drops(&self, item: I) {
        self.prev.never_drops(item);
    }

    fn apply(&self, item: I) -> Option<Prev::Output> {
        self.prev.apply(item)
    }

    fn apply_pure(&self, item: I) -> Prev::Output {
        self.prev.apply_pure(item)
    }
}

impl<Prev, I> FusedStage<I> for Ordered<Prev> where Prev: FusedStage<I> {
    type Output = Prev::Output;

    const MAY_FILTER: bool = Prev::MAY_FILTER;

    open spec fn accepts(&self, item: I) -> bool {
        self.prev.accepts(item)
    }

    open spec fn outcome(&self, item: I, out: Option<Prev::Output>) -> bool {
        self.prev.outcome(item, out)
    }

    proof fn never_drops(&self, item: I) {
        self.prev.never_drops(item);
    }

    fn apply(&self, item: I) -> Option<Prev::Output> {
        self.prev.apply(item)
    }

    fn apply_pure(&self, item: I) -> Prev::Output {
        self.prev.apply_pure(item)
    }
}

/// A chain of stages that may fail on an item. The first error ends the chain.
pub trait FusedTryStage<T> {
    type Output;

    type Error;

    /// Whether the chain holds a filter. Without one every success has a value.
    const MAY_FILTER: bool = false;

    /// Whether every stage may be called on what reaches it from `item`.
    spec fn try_accepts(&self, item: T) -> bool;

    /// Whether the chain can turn `item` into `out`: a value, nothing where a
    /// filter dropped it, or an error.
    spec fn try_outcome(&self, item: T, out: Result<Option<Self::Output>, Self::Error>) -> bool;

    /// A chain without a filter drops no item.
    proof fn never_drops_on_success(&self, item: T)
        ensures
            !Self::MAY_FILTER ==> !self.try_outcome(item, Ok(None)),
    ;

    /// Applies the chain.
    fn try_apply(&self, item: T) -> (out: Result<Option<Self::Output>, Self::Error>)
        requires
            self.try_accepts(item),
        ensures
            self.try_outcome(item, out),
            !Self::MAY_FILTER ==> out != Ok::<Option<Self::Output>, Self::Error>(None),
    ;
}

impl<T> FusedTryStage<T> for Identity {
    type Output = T;

    type Error = std::convert::Infallible;

    open spec fn try_accepts(&self, item: T) -> bool {
        true
    }

    open spec fn try_outcome(
        &self,
        item: T,
        out: Result<Option<T>, std::convert::Infallible>,
    ) -> bool {
        out == Ok::<Option<T>, std::convert::Infallible>(Some(item))
    }

    proof fn never_drops_on_success(&self, item: T) {
    }

    fn try_apply(&self, item: T) -> Result<Option<T>, std::convert::Infallible> {
        Ok(Some(item))
    }
}

impl<Prev, F, I, O, E> FusedTryStage<I> for SyncMap<Prev, F> where
    Prev: FusedTryStage<I, Error = E>,
    F: Fn(Prev::Output) -> O,
 {
    type Output = O;

    type Error = E;

    const MAY_FILTER: bool = Prev::MAY_FILTER;

    open spec fn try_accepts(&self, item: I) -> bool {
        &&& self.prev.try_accepts(item)
        &&& forall|v: Prev::Output| #[trigger]
            self.prev.try_outcome(item, Ok(Some(v))) ==> self.f.requires((v,))
    }

    open spec fn try_outcome(&self, item: I, out: Result<Option<O>, E>) -> bool {
        match out {
            Ok(Some(o)) => exists|v: Prev::Output| #[trigger]
                self.prev.try_outcome(item, Ok(Some(v))) && self.f.ensures((v,), o),
            Ok(None) => self.prev.try_outcome(item, Ok(None)),
            Err(e) => self.prev.try_outcome(item, Err(e)),
        }
    }

    proof fn never_drops_on_success(&self, item: I) {
        self.prev.never_drops_on_success(item);
    }

    fn try_apply(&self, item: I) -> Result<Option<O>, E> {
        match self.prev.try_apply(item) {
            Ok(Some(v)) => Ok(Some((self.f)(v))),
            Ok(None) => Ok(None),
            Err(e) => Err(e),
        }
    }
}

impl<Prev, F, I, E> FusedTryStage<I> for Filter<Prev, F> where
    Prev: FusedTryStage<I, Error = E>,
    F: Fn(&Prev::Output) -> bool,
 {
    type Output = Prev::Output;

    type Error = E;

    const MAY_FILTER: bool = true;

    open spec fn try_accepts(&self, item: I) -> bool {
        &&& self.prev.try_accepts(item)
        &&& forall|v: Prev::Output| #[trigger]
            self.prev.try_outcome(item, Ok(Some(v))) ==> self.f.requires((&v,))
    }

    open spec fn try_outcome(&self, item: I, out: Result<Option<Prev::Output>, E>) -> bool {
        match out {
            Ok(Some(v)) => self.prev.try_outcome(item, Ok(Some(v))) && self.f.ensures((&v,), true),
            Ok(None) => self.prev.try_outcome(item, Ok(None)) || exists|v: Prev::Output| #[trigger]
                self.prev.try_outcome(item, Ok(Some(v))) && self.f.ensures((&v,), false),
            Err(e) => self.prev.try_outcome(item, Err(e)),
        }
    }

    proof fn never_drops_on_success(&self, item: I) {
    }

    fn try_apply(&self, item: I) -> Result<Option<Prev::Output>, E> {
        match self.prev.try_apply(item) {
            Ok(Some(v)) => if (self.f)(&v) {
                Ok(Some(v))
            } else {
                Ok(None)
            },
            Ok(None) => Ok(None),
            Err(e) => Err(e),
        }
    }
}

impl<Prev, F, I, O, E> FusedTryStage<I> for TryMap<Prev, F> where
    Prev: FusedTryStage<I, Error = E>,
    F: Fn(Prev::Output) -> Result<O, E>,
 {
    type Output = O;

    type Error = E;

    const MAY_FILTER: bool = Prev::MAY_FILTER;

    open spec fn try_accepts(&self, item: I) -> bool {
        &&& self.prev.try_accepts(item)
        &&& forall|v: Prev::Output| #[trigger]
            self.prev.try_outcome(item, Ok(Some(v))) ==> self.f.requires((v,))
    }

    open spec fn try_outcome(&self, item: I, out: Result<Option<O>, E>) -> bool {
        match out {
            Ok(Some(o)) => exists|v: Prev::Output| #[trigger]
                self.prev.try_outcome(item, Ok(Some(v))) && self.f.ensures((v,), Ok(o)),
            Ok(None) => self.prev.try_outcome(item, Ok(None)),
            Err(e) => self.prev.try_outcome(item, Err(e)) || exists|v: Prev::Output| #[trigger]
                self.prev.try_outcome(item, Ok(Some(v))) && self.f.ensures((v,), Err(e)),
        }
    }

    proof fn never_drops_on_success(&self, item: I) {
        self.prev.never_drops_on_success(item);
    }

    fn try_apply(&self, item: I) -> Result<Option<O>, E> {
        match self.prev.try_apply(item) {
            Ok(Some(v)) => match (self.f)(v) {
                Ok(o) => Ok(Some(o)),
                Err(e) => Err(e),
            },
            Ok(None) => Ok(None),
            Err(e) => Err(e),
        }
    }
}

impl<S, T, E> FusedTryStage<T> for InfallibleChain<S, E> where S: FusedStage<T> {
    type Output = S::Output;

    type Error = E;

    const MAY_FILTER: bool = S::MAY_FILTER;

    open spec fn try_accepts(&self, item: T) -> bool {
        self.0.accepts(item)
    }

    open spec fn try_outcome(&self, item: T, out: Result<Option<S::Output>, E>) -> bool {
        match out {
            Ok(o) => self.0.outcome(item, o),
            Err(_) => false,
        }
    }

    proof fn never_drops_on_success(&self, item: T) {
        self.0.never_drops(item);
    }

    fn try_apply(&self, item: T) -> Result<Option<S::Output>, E> {
        Ok(self.0.apply(item))
    }
}

impl<Prev, F, I, E1, E2> FusedTryStage<I> for MapErr<Prev, F> where
    Prev: FusedTryStage<I, Error = E1>,
    F: Fn(E1) -> E2,
 {
    type Output = Prev::Output;

    type Error = E2;

    const MAY_FILTER: bool = Prev::MAY_FILTER;

    open spec fn try_accepts(&self, item: I) -> bool {
        &&& self.prev.try_accepts(item)
        &&& forall|e: E1| #[trigger]
            self.prev.try_outcome(item, Err(e)) ==> self.f.requires((e,))
    }

    open spec fn try_outcome(&self, item: I, out: Result<Option<Prev::Output>, E2>) -> bool {
        match out {
            Ok(v) => self.prev.try_outcome(item, Ok(v)),
            Err(e) => exists|e1: E1| #[trigger]
                self.prev.try_outcome(item, Err(e1)) && self.f.ensures((e1,), e),
        }
    }

    proof fn never_drops_on_success(&self, item: I) {
        self.prev.never_drops_on_success(item);
    }

    fn try_apply(&self, item: I) -> Result<Option<Prev::Output>, E2> {
        match self.prev.try_apply(item) {
            Ok(v) => Ok(v),
            Err(e) => Err((self.f)(e)),
        }
    }
}

/// `outs` lists what the chain made of each item: a value, or nothing where a
/// filter dropped it.
pub open spec fn outcomes<T, S: FusedStage<T>>(
    stages: S,
    items: Seq<T>,
    outs: Seq<Option<S::Output>>,
) -> bool {
    &&& outs.len() == items.len()
    &&& forall|i: int| 0 <= i < items.len() ==> stages.outcome(items[i], #[trigger] outs[i])
}

/// The values among `outs`, in order.
pub open spec fn kept<O>(outs: Seq<Option<O>>) -> Seq<O>
    decreases outs.len(),
{
    if outs.len() == 0 {
        Seq::empty()
    } else {
        match outs.last() {
            Some(o) => kept(outs.drop_last()).push(o),
            None => kept(outs.drop_last()),
        }
    }
}

/// Whether every stage may be called on what reaches it from each item.
pub open spec fn accepts_all<T, S: FusedStage<T>>(stages: S, items: Seq<T>) -> bool {
    forall|i: int| 0 <= i < items.len() ==> stages.accepts(#[trigger] items[i])
}

/// `result` is what the chain lets through of `items`, in their order.
pub open spec fn collects<T, S: FusedStage<T>>(
    stages: S,
    items: Seq<T>,
    result: Seq<S::Output>,
) -> bool {
    exists|outs: Seq<Option<S::Output>>| #[trigger]
        outcomes(stages, items, outs) && result == kept(outs)
}

/// `f` was called on everything the chain lets through of `items`.
pub open spec fn feeds<T, S: FusedStage<T>, F: Fn(S::Output)>(
    stages: S,
    items: Seq<T>,
    f: F,
) -> bool {
    exists|outs: Seq<Option<S::Output>>| #[trigger]
        outcomes(stages, items, outs) && forall|i: int|
            0 <= i < kept(outs).len() ==> f.ensures((#[trigger] kept(outs)[i],), ())
}

/// Joining two lists of outcomes joins what they keep.
pub proof fn lemma_kept_add<O>(a: Seq<Option<O>>, b: Seq<Option<O>>)
    ensures
        kept(a + b) == kept(a) + kept(b),
    decreases b.len(),
{
    if b.len() == 0 {
        assert(a + b =~= a);
        assert(kept(a) + kept(b) =~= kept(a));
    } else {
        lemma_kept_add(a, b.drop_last());
        assert((a + b).drop_last() =~= a + b.drop_last());
        assert((a + b).last() == b.last());
        match b.last() {
            Some(o) => {
                assert((kept(a) + kept(b.drop_last())).push(o) =~= kept(a) + kept(
                    b.drop_last(),
                ).push(o));
            },
            None => {},
        }
    }
}

/// Where nothing was dropped, everything is kept.
pub proof fn lemma_kept_all<O>(outs: Seq<Option<O>>)
    requires
        forall|i: int| 0 <= i < outs.len() ==> #[trigger] outs[i] is Some,
    ensures
        kept(outs) == Seq::new(outs.len(), |i: int| outs[i]->0),
    decreases outs.len(),
{
    if outs.len() > 0 {
        lemma_kept_all(outs.drop_last());
    }
    assert(kept(outs) =~= Seq::new(outs.len(), |i: int| outs[i]->0));
}

/// A list of values under `Some` keeps exactly those values.
pub proof fn lemma_kept_values<O>(values: Seq<O>)
    ensures
        kept(Seq::new(values.len(), |i: int| Some(values[i]))) == values,
{
    let outs = Seq::new(values.len(), |i: int| Some(values[i]));
    lemma_kept_all(outs);
    assert(kept(outs) =~= values);
}

/// Splitting the input does not change the output: the results of two parts,
/// joined, are a result of the whole.
pub proof fn law_collect_splits<T, S: FusedStage<T>>(
    stages: S,
    left: Seq<T>,
    right: Seq<T>,
    left_result: Seq<S::Output>,
    right_result: Seq<S::Output>,
)
    requires
        collects(stages, left, left_result),
        collects(stages, right, right_result),
    ensures
        collects(stages, left + right, left_result + right_result),
{
    let a = choose|outs: Seq<Option<S::Output>>| #[trigger]
        outcomes(stages, left, outs) && left_result == kept(outs);
    let b = choose|outs: Seq<Option<S::Output>>| #[trigger]
        outcomes(stages, right, outs) && right_result == kept(outs);
    lemma_kept_add(a, b);
    assert forall|i: int| 0 <= i < (left + right).len() implies stages.outcome(
        (left + right)[i],
        #[trigger] (a + b)[i],
    ) by {
        if i < left.len() {
            assert((a + b)[i] == a[i]);
        } else {
            assert((a + b)[i] == b[i - left.len()]);
        }
    }
    assert(outcomes(stages, left + right, a + b));
}

/// A chain without a filter returns one value per item, each in its item's
/// place.
pub proof fn law_unfiltered_keeps_places<T, S: FusedStage<T>>(
    stages: S,
    items: Seq<T>,
    result: Seq<S::Output>,
)
    requires
        !S::MAY_FILTER,
        collects(stages, items, result),
    ensures
        result.len() == items.len(),
        forall|i: int|
            0 <= i < items.len() ==> stages.outcome(items[i], Some(#[trigger] result[i])),
{
    let outs = choose|outs: Seq<Option<S::Output>>| #[trigger]
        outcomes(stages, items, outs) && result == kept(outs);
    assert forall|i: int| 0 <= i < outs.len() implies #[trigger] outs[i] is Some by {
        stages.never_drops(items[i]);
    }
    lemma_kept_all(outs);
    assert forall|i: int| 0 <= i < items.len() implies stages.outcome(
        items[i],
        Some(#[trigger] result[i]),
    ) by {
        assert(outs[i] == Some(result[i]));
    }
}

/// No chain returns more values than it was given items.
pub proof fn law_collect_never_grows<T, S: FusedStage<T>>(
    stages: S,
    items: Seq<T>,
    result: Seq<S::Output>,
)
    requires
        collects(stages, items, result),
    ensures
        result.len() <= items.len(),
{
    let outs = choose|outs: Seq<Option<S::Output>>| #[trigger]
        outcomes(stages, items, outs) && result == kept(outs);
    lemma_kept_len(outs);
}

proof fn lemma_kept_len<O>(outs: Seq<Option<O>>)
    ensures
        kept(outs).len() <= outs.len(),
    decreases outs.len(),
{
    if outs.len() > 0 {
        lemma_kept_len(outs.drop_last());
    }
}

/// `outs` lists what the fallible chain made of each item, none of which failed.
pub open spec fn try_outcomes<T, S: FusedTryStage<T>>(
    stages: S,
    items: Seq<T>,
    outs: Seq<Option<S::Output>>,
) -> bool {
    &&& outs.len() == items.len()
    &&& forall|i: int| 0 <= i < items.len() ==> stages.try_outcome(items[i], Ok(#[trigger] outs[i]))
}

/// Whether every stage may be called on what reaches it from each item.
pub open spec fn try_accepts_all<T, S: FusedTryStage<T>>(stages: S, items: Seq<T>) -> bool {
    forall|i: int| 0 <= i < items.len() ==> stages.try_accepts(#[trigger] items[i])
}

/// Every item passed, and `result` is what was let through, in order.
pub open spec fn succeeds<T, S: FusedTryStage<T>>(
    stages: S,
    items: Seq<T>,
    result: Seq<S::Output>,
) -> bool {
    exists|outs: Seq<Option<S::Output>>| #[trigger]
        try_outcomes(stages, items, outs) && result == kept(outs)
}

/// Item `k` failed with `error`, and every item before it passed.
pub open spec fn fails_at<T, S: FusedTryStage<T>>(
    stages: S,
    items: Seq<T>,
    k: int,
    error: S::Error,
) -> bool {
    &&& 0 <= k < items.len()
    &&& stages.try_outcome(items[k], Err(error))
    &&& exists|outs: Seq<Option<S::Output>>| #[trigger] try_outcomes(stages, items.take(k), outs)
}

/// What a fallible chain returns for `items`: all that was let through, or the
/// error of the first item that failed.
pub open spec fn try_collects<T, S: FusedTryStage<T>>(
    stages: S,
    items: Seq<T>,
    result: Result<Seq<S::Output>, S::Error>,
) -> bool {
    match result {
        Ok(values) => succeeds(stages, items, values),
        Err(error) => exists|k: int| #[trigger] fails_at(stages, items, k, error),
    }
}

/// The error of the first failing item is what the chain returns.
pub proof fn lemma_first_failure<T, S: FusedTryStage<T>>(
    stages: S,
    items: Seq<T>,
    k: int,
    error: S::Error,
)
    requires
        fails_at(stages, items, k, error),
    ensures
        try_collects(stages, items, Err::<Seq<S::Output>, S::Error>(error)),
{
    let r: Result<Seq<S::Output>, S::Error> = Err(error);
    assert(fails_at(stages, items, k, r->Err_0));
}

/// The view of a fallible collection's result.
pub open spec fn result_view<O, E>(r: Result<Vec<O>, E>) -> Result<Seq<O>, E> {
    match r {
        Ok(v) => Ok(v@),
        Err(e) => Err(e),
    }
}

/// What two parts of an input come to together: the left error wins.
pub open spec fn joined_results<O, E>(
    left: Result<Seq<O>, E>,
    right: Result<Seq<O>, E>,
) -> Result<Seq<O>, E> {
    match (left, right) {
        (Ok(l), Ok(r)) => Ok(l + r),
        (Err(e), _) => Err(e),
        (_, Err(e)) => Err(e),
    }
}

/// The first error in input order is reported however the input is split: the
/// results of two parts, joined with the left error first, are a result of the
/// whole.
pub proof fn law_try_collect_splits<T, S: FusedTryStage<T>>(
    stages: S,
    left: Seq<T>,
    right: Seq<T>,
    left_result: Result<Seq<S::Output>, S::Error>,
    right_result: Result<Seq<S::Output>, S::Error>,
)
    requires
        try_collects(stages, left, left_result),
        try_collects(stages, right, right_result),
    ensures
        try_collects(stages, left + right, joined_results(left_result, right_result)),
{
    match left_result {
        Err(e) => {
            let k = choose|k: int| #[trigger] fails_at(stages, left, k, e);
            assert((left + right).take(k) =~= left.take(k));
            assert(fails_at(stages, left + right, k, e));
        },
        Ok(l) => {
            let a = choose|outs: Seq<Option<S::Output>>| #[trigger]
                try_outcomes(stages, left, outs) && l == kept(outs);
            match right_result {
                Err(e) => {
                    let k = choose|k: int| #[trigger] fails_at(stages, right, k, e);
                    let b = choose|outs: Seq<Option<S::Output>>| #[trigger]
                        try_outcomes(stages, right.take(k), outs);
                    let whole = left + right;
                    let n = left.len() + k;
                    lemma_try_outcomes_add(stages, left, right.take(k), a, b);
                    assert(whole.take(n) =~= left + right.take(k));
                    assert(fails_at(stages, whole, n, e));
                },
                Ok(r) => {
                    let b = choose|outs: Seq<Option<S::Output>>| #[trigger]
                        try_outcomes(stages, right, outs) && r == kept(outs);
                    lemma_try_outcomes_add(stages, left, right, a, b);
                    lemma_kept_add(a, b);
                },
            }
        },
    }
}

pub proof fn lemma_try_outcomes_add<T, S: FusedTryStage<T>>(
    stages: S,
    left: Seq<T>,
    right: Seq<T>,
    a: Seq<Option<S::Output>>,
    b: Seq<Option<S::Output>>,
)
    requires
        try_outcomes(stages, left, a),
        try_outcomes(stages, right, b),
    ensures
        try_outcomes(stages, left + right, a + b),
{
    assert forall|i: int| 0 <= i < (left + right).len() implies stages.try_outcome(
        (left + right)[i],
        Ok(#[trigger] (a + b)[i]),
    ) by {
        if i < left.len() {
            assert((a + b)[i] == a[i]);
        } else {
            assert((a + b)[i] == b[i - left.len()]);
        }
    }
}

} // verus!
