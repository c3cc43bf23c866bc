//! What fusing stages into one pass leaves unchanged.
use crate::builder::stage::{
    Fence, Filter, FusedStage, FusedTryStage, Identity, InfallibleChain, MapErr, Ordered, SyncMap,
    TryMap, accepts_all, collects, fails_at, feeds, kept, lemma_first_failure, lemma_kept_values,
    outcomes, succeeds, try_accepts_all, try_collects, try_outcomes,
};
use vstd::prelude::*;

verus! {

/// The chain makes one thing of each item only.
pub open spec fn determined<T, S: FusedStage<T>>(stages: S, items: Seq<T>) -> bool {
    forall|i: int, a: Option<S::Output>, b: Option<S::Output>|
        0 <= i < items.len() && #[trigger] stages.outcome(items[i], a) && #[trigger] stages.outcome(
            items[i],
            b,
        ) ==> a == b
}

/// However a run is split over workers, it returns the same: two results of one
/// chain for the same items are equal, provided that its stages are functions.
pub proof fn law_collect_is_determined<T, S: FusedStage<T>>(
    stages: S,
    items: Seq<T>,
    r1: Seq<S::Output>,
    r2: Seq<S::Output>,
)
    requires
        determined(stages, items),
        collects(stages, items, r1),
        collects(stages, items, r2),
    ensures
        r1 == r2,
{
    let a = choose|outs: Seq<Option<S::Output>>| #[trigger]
        outcomes(stages, items, outs) && r1 == kept(outs);
    let b = choose|outs: Seq<Option<S::Output>>| #[trigger]
        outcomes(stages, items, outs) && r2 == kept(outs);
    assert forall|i: int| 0 <= i < items.len() implies a[i] == b[i] by {
        assert(stages.outcome(items[i], a[i]));
        assert(stages.outcome(items[i], b[i]));
    }
    assert(a =~= b);
}

/// The fallible chain makes one thing of each item only.
pub open spec fn try_determined<T, S: FusedTryStage<T>>(stages: S, items: Seq<T>) -> bool {
    forall|i: int, a: Result<Option<S::Output>, S::Error>, b: Result<Option<S::Output>, S::Error>|
        0 <= i < items.len() && #[trigger] stages.try_outcome(items[i], a)
            && #[trigger] stages.try_outcome(items[i], b) ==> a == b
}

/// However a fallible run is split over workers, it returns the same: all values or
/// the same error, provided that its stages are functions.
pub proof fn law_try_collect_is_determined<T, S: FusedTryStage<T>>(
    stages: S,
    items: Seq<T>,
    r1: Result<Seq<S::Output>, S::Error>,
    r2: Result<Seq<S::Output>, S::Error>,
)
    requires
        try_determined(stages, items),
        try_collects(stages, items, r1),
        try_collects(stages, items, r2),
    ensures
        r1 == r2,
{
    match (r1, r2) {
        (Ok(v1), Ok(v2)) => {
            let a = choose|outs: Seq<Option<S::Output>>| #[trigger]
                try_outcomes(stages, items, outs) && v1 == kept(outs);
            let b = choose|outs: Seq<Option<S::Output>>| #[trigger]
                try_outcomes(stages, items, outs) && v2 == kept(outs);
            lemma_same_prefix(stages, items, items.len() as int, a, b);
            assert(a =~= b);
        },
        (Err(e1), Err(e2)) => {
            let k1 = choose|k: int| #[trigger] fails_at(stages, items, k, e1);
            let k2 = choose|k: int| #[trigger] fails_at(stages, items, k, e2);
            lemma_fails_once(stages, items, k1, e1, k2);
            lemma_fails_once(stages, items, k2, e2, k1);
            assert(stages.try_outcome(items[k1], Err(e1)));
            assert(stages.try_outcome(items[k1], Err(e2)));
        },
        (Ok(v), Err(e)) => {
            lemma_no_failure(stages, items, v, e);
        },
        (Err(e), Ok(v)) => {
            lemma_no_failure(stages, items, v, e);
        },
    }
}

proof fn lemma_same_prefix<T, S: FusedTryStage<T>>(
    stages: S,
    items: Seq<T>,
    n: int,
    a: Seq<Option<S::Output>>,
    b: Seq<Option<S::Output>>,
)
    requires
        try_determined(stages, items),
        n == items.len(),
        try_outcomes(stages, items, a),
        try_outcomes(stages, items, b),
    ensures
        forall|i: int| 0 <= i < n ==> a[i] == b[i],
{
    assert forall|i: int| 0 <= i < n implies a[i] == b[i] by {
        let x: Result<Option<S::Output>, S::Error> = Ok(a[i]);
        let y: Result<Option<S::Output>, S::Error> = Ok(b[i]);
        assert(stages.try_outcome(items[i], x));
        assert(stages.try_outcome(items[i], y));
        assert(x == y);
    }
}

/// Where an item fails, no later item is the first that fails.
proof fn lemma_fails_once<T, S: FusedTryStage<T>>(
    stages: S,
    items: Seq<T>,
    k: int,
    error: S::Error,
    later: int,
)
    requires
        try_determined(stages, items),
        fails_at(stages, items, k, error),
        0 <= later < items.len(),
        exists|outs: Seq<Option<S::Output>>| #[trigger]
            try_outcomes(stages, items.take(later), outs),
    ensures
        later <= k,
{
    if k < later {
        let outs = choose|outs: Seq<Option<S::Output>>| #[trigger]
            try_outcomes(stages, items.take(later), outs);
        assert(items.take(later)[k] == items[k]);
        let passed: Result<Option<S::Output>, S::Error> = Ok(outs[k]);
        let failed: Result<Option<S::Output>, S::Error> = Err(error);
        assert(stages.try_outcome(items[k], passed));
        assert(stages.try_outcome(items[k], failed));
        assert(passed == failed);
    }
}

/// Where every item passes, none fails.
proof fn lemma_no_failure<T, S: FusedTryStage<T>>(
    stages: S,
    items: Seq<T>,
    values: Seq<S::Output>,
    error: S::Error,
)
    requires
        try_determined(stages, items),
        succeeds(stages, items, values),
    ensures
        forall|k: int| !#[trigger] fails_at(stages, items, k, error),
{
    let outs = choose|outs: Seq<Option<S::Output>>| #[trigger]
        try_outcomes(stages, items, outs) && values == kept(outs);
    assert forall|k: int| !#[trigger] fails_at(stages, items, k, error) by {
        if fails_at(stages, items, k, error) {
            let passed: Result<Option<S::Output>, S::Error> = Ok(outs[k]);
            let failed: Result<Option<S::Output>, S::Error> = Err(error);
            assert(stages.try_outcome(items[k], passed));
            assert(stages.try_outcome(items[k], failed));
            assert(passed == failed);
        }
    }
}

/// `r` holds a result of `f` for every value of `mid`, in its place.
pub open spec fn mapped<M, O, F: Fn(M) -> O>(f: F, mid: Seq<M>, r: Seq<O>) -> bool {
    &&& r.len() == mid.len()
    &&& forall|i: int| 0 <= i < mid.len() ==> f.ensures((mid[i],), #[trigger] r[i])
}

/// The list with a value of `r`, in turn, wherever `outs` has one.
pub open spec fn refilled<M, O>(outs: Seq<Option<M>>, r: Seq<O>) -> Seq<Option<O>>
    decreases outs.len(),
{
    if outs.len() == 0 {
        Seq::empty()
    } else if outs.last() is Some {
        refilled(outs.drop_last(), r.drop_last()).push(Some(r.last()))
    } else {
        refilled(outs.drop_last(), r).push(None)
    }
}

/// Refilling keeps the gaps where they are and puts every value in the place of the
/// one it stands for.
proof fn lemma_refilled<M, O>(outs: Seq<Option<M>>, r: Seq<O>)
    requires
        r.len() == kept(outs).len(),
    ensures
        refilled(outs, r).len() == outs.len(),
        kept(refilled(outs, r)) == r,
        forall|i: int|
            0 <= i < outs.len() ==> (outs[i] is Some <==> #[trigger] refilled(outs, r)[i] is Some),
        forall|i: int|
            0 <= i < outs.len() && outs[i] is Some ==> exists|j: int|
                0 <= j < r.len() && #[trigger] kept(outs)[j] == outs[i]->0 && r[j]
                    == (#[trigger] refilled(outs, r)[i])->0,
    decreases outs.len(),
{
    if outs.len() > 0 {
        let init = outs.drop_last();
        let last = outs.len() - 1;
        let all = refilled(outs, r);
        if outs.last() is Some {
            let less = r.drop_last();
            lemma_refilled(init, less);
            assert(all.drop_last() =~= refilled(init, less));
            assert(less.push(r.last()) =~= r);
            assert forall|i: int| 0 <= i < outs.len() && outs[i] is Some implies exists|j: int|
                0 <= j < r.len() && #[trigger] kept(outs)[j] == outs[i]->0 && r[j]
                    == (#[trigger] all[i])->0 by {
                if i < last {
                    assert(init[i] == outs[i]);
                    assert(refilled(init, less)[i] == all[i]);
                    let j = choose|j: int|
                        0 <= j < less.len() && #[trigger] kept(init)[j] == init[i]->0 && less[j]
                            == refilled(init, less)[i]->0;
                    assert(kept(outs)[j] == kept(init)[j]);
                } else {
                    assert(kept(outs)[r.len() - 1] == outs[i]->0);
                }
            }
            assert forall|i: int| 0 <= i < outs.len() implies (outs[i] is Some
                <==> #[trigger] all[i] is Some) by {
                if i < last {
                    assert(refilled(init, less)[i] == all[i]);
                }
            }
        } else {
            lemma_refilled(init, r);
            assert(all.drop_last() =~= refilled(init, r));
            assert forall|i: int| 0 <= i < outs.len() && outs[i] is Some implies exists|j: int|
                0 <= j < r.len() && #[trigger] kept(outs)[j] == outs[i]->0 && r[j]
                    == (#[trigger] all[i])->0 by {
                assert(init[i] == outs[i]);
                assert(refilled(init, r)[i] == all[i]);
                let j = choose|j: int|
                    0 <= j < r.len() && #[trigger] kept(init)[j] == init[i]->0 && r[j]
                        == refilled(init, r)[i]->0;
                assert(kept(outs)[j] == kept(init)[j]);
            }
            assert forall|i: int| 0 <= i < outs.len() implies (outs[i] is Some
                <==> #[trigger] all[i] is Some) by {
                if i < last {
                    assert(refilled(init, r)[i] == all[i]);
                }
            }
        }
    } else {
        assert(r =~= Seq::<O>::empty());
    }
}

/// Both lists hold what they keep as number `j` in place `i`.
spec fn side_by_side<M, O>(a: Seq<Option<M>>, b: Seq<Option<O>>, j: int, i: int) -> bool {
    0 <= i < a.len() && a[i] == Some(kept(a)[j]) && b[i] == Some(kept(b)[j])
}

spec fn paired<M, O>(a: Seq<Option<M>>, b: Seq<Option<O>>, j: int) -> bool {
    exists|i: int| #[trigger] side_by_side(a, b, j, i)
}

/// Lists with the same gaps keep values in the same places.
proof fn lemma_kept_side_by_side<M, O>(a: Seq<Option<M>>, b: Seq<Option<O>>)
    requires
        a.len() == b.len(),
        forall|i: int| 0 <= i < a.len() ==> (a[i] is Some <==> #[trigger] b[i] is Some),
    ensures
        kept(a).len() == kept(b).len(),
        forall|j: int| 0 <= j < kept(b).len() ==> #[trigger] paired(a, b, j),
    decreases a.len(),
{
    if a.len() > 0 {
        let a0 = a.drop_last();
        let b0 = b.drop_last();
        let last = a.len() - 1;
        assert forall|i: int| 0 <= i < a0.len() implies (a0[i] is Some <==> #[trigger] b0[i] is Some) by {
            assert(b0[i] == b[i]);
        }
        lemma_kept_side_by_side(a0, b0);
        assert(a[last] is Some <==> b[last] is Some);
        assert forall|j: int| 0 <= j < kept(b).len() implies #[trigger] paired(a, b, j) by {
            if j < kept(b0).len() {
                assert(kept(b)[j] == kept(b0)[j]);
                assert(kept(a)[j] == kept(a0)[j]);
                assert(paired(a0, b0, j));
                let i = choose|i: int| #[trigger] side_by_side(a0, b0, j, i);
                assert(side_by_side(a, b, j, i));
            } else {
                assert(side_by_side(a, b, j, last));
            }
        }
    }
}

/// `outs` lists something that `can` come out in each of `n` places.
spec fn lists<M>(can: spec_fn(int, Option<M>) -> bool, n: nat, outs: Seq<Option<M>>) -> bool {
    &&& outs.len() == n
    &&& forall|i: int| 0 <= i < n ==> can(i, #[trigger] outs[i])
}

/// What comes out in each place once `f` is applied to what `can`.
spec fn after_map<M, O, F: Fn(M) -> O>(
    can: spec_fn(int, Option<M>) -> bool,
    f: F,
) -> spec_fn(int, Option<O>) -> bool {
    |i: int, out: Option<O>|
        match out {
            Some(o) => exists|v: M| #[trigger] can(i, Some(v)) && f.ensures((v,), o),
            None => can(i, None),
        }
}

/// A value that `f` turned into `o`.
spec fn value_behind<M, O, F: Fn(M) -> O>(
    can: spec_fn(int, Option<M>) -> bool,
    f: F,
    i: int,
    o: O,
) -> M {
    choose|v: M| #[trigger] can(i, Some(v)) && f.ensures((v,), o)
}

/// Applying `f` in every place comes to applying it to what is kept.
proof fn lemma_map_lists<M, O, F: Fn(M) -> O>(
    can: spec_fn(int, Option<M>) -> bool,
    n: nat,
    f: F,
    r: Seq<O>,
)
    ensures
        (exists|outs: Seq<Option<O>>| #[trigger] lists(after_map(can, f), n, outs) && r == kept(outs))
            <==> (exists|mids: Seq<Option<M>>| #[trigger]
            lists(can, n, mids) && mapped(f, kept(mids), r)),
{
    let then_f = after_map(can, f);
    if exists|outs: Seq<Option<O>>| #[trigger] lists(then_f, n, outs) && r == kept(outs) {
        let outs = choose|outs: Seq<Option<O>>| #[trigger] lists(then_f, n, outs) && r == kept(outs);
        let mids = Seq::new(
            n,
            |i: int|
                match outs[i] {
                    Some(o) => Some(value_behind(can, f, i, o)),
                    None => None,
                },
        );
        assert forall|i: int| 0 <= i < n implies can(i, #[trigger] mids[i]) && (outs[i] matches Some(
            o,
        ) ==> f.ensures((mids[i]->0,), o)) by {
            assert(then_f(i, outs[i]));
        }
        assert(lists(can, n, mids));
        lemma_kept_side_by_side(mids, outs);
        assert forall|j: int| 0 <= j < kept(mids).len() implies f.ensures(
            (kept(mids)[j],),
            #[trigger] r[j],
        ) by {
            assert(paired(mids, outs, j));
            let i = choose|i: int| #[trigger] side_by_side(mids, outs, j, i);
            assert(mids[i]->0 == kept(mids)[j]);
        }
        assert(mapped(f, kept(mids), r));
    }
    if exists|mids: Seq<Option<M>>| #[trigger] lists(can, n, mids) && mapped(f, kept(mids), r) {
        let mids = choose|mids: Seq<Option<M>>| #[trigger]
            lists(can, n, mids) && mapped(f, kept(mids), r);
        let mid = kept(mids);
        lemma_refilled(mids, r);
        let outs = refilled(mids, r);
        assert forall|i: int| 0 <= i < n implies then_f(i, #[trigger] outs[i]) by {
            assert(can(i, mids[i]));
            if mids[i] is Some {
                let j = choose|j: int|
                    0 <= j < r.len() && #[trigger] kept(mids)[j] == mids[i]->0 && r[j]
                        == outs[i]->0;
                assert(f.ensures((mid[j],), r[j]));
                let v = mids[i]->0;
                assert(can(i, Some(v)));
                assert(f.ensures((v,), outs[i]->0));
                assert(outs[i] == Some(outs[i]->0));
            } else {
                assert(outs[i] is None);
            }
        }
        assert(lists(then_f, n, outs));
    }
}

/// A map that is fused into a chain gives what a map over the chain's whole output
/// gives.
pub proof fn law_fused_map_is_a_map_of_the_output<I, O, P: FusedStage<I>, F: Fn(P::Output) -> O>(
    chain: SyncMap<P, F>,
    items: Seq<I>,
    r: Seq<O>,
)
    ensures
        collects(chain, items, r) <==> exists|mid: Seq<P::Output>| #[trigger]
            collects(chain.prev, items, mid) && mapped(chain.f, mid, r),
{
    let prev = chain.prev;
    let f = chain.f;
    let n = items.len();
    let can = |i: int, out: Option<P::Output>| prev.outcome(items[i], out);
    lemma_map_lists(can, n, f, r);
    if collects(chain, items, r) {
        let outs = choose|outs: Seq<Option<O>>| #[trigger]
            outcomes(chain, items, outs) && r == kept(outs);
        assert forall|i: int| 0 <= i < n implies after_map(can, f)(i, #[trigger] outs[i]) by {
            assert(chain.outcome(items[i], outs[i]));
            if outs[i] is Some {
                let v = choose|v: P::Output| #[trigger]
                    prev.outcome(items[i], Some(v)) && f.ensures((v,), outs[i]->0);
                assert(can(i, Some(v)));
            }
        }
        assert(lists(after_map(can, f), n, outs));
        let mids = choose|mids: Seq<Option<P::Output>>| #[trigger]
            lists(can, n, mids) && mapped(f, kept(mids), r);
        assert forall|i: int| 0 <= i < n implies prev.outcome(items[i], #[trigger] mids[i]) by {
            assert(can(i, mids[i]));
        }
        assert(outcomes(prev, items, mids));
        assert(collects(prev, items, kept(mids)));
    }
    if exists|mid: Seq<P::Output>| #[trigger] collects(prev, items, mid) && mapped(f, mid, r) {
        let mid = choose|mid: Seq<P::Output>| #[trigger]
            collects(prev, items, mid) && mapped(f, mid, r);
        let mids = choose|mids: Seq<Option<P::Output>>| #[trigger]
            outcomes(prev, items, mids) && mid == kept(mids);
        assert(lists(can, n, mids));
        let outs = choose|outs: Seq<Option<O>>| #[trigger]
            lists(after_map(can, f), n, outs) && r == kept(outs);
        assert forall|i: int| 0 <= i < n implies chain.outcome(items[i], #[trigger] outs[i]) by {
            assert(after_map(can, f)(i, outs[i]));
            if outs[i] is Some {
                let v = choose|v: P::Output| #[trigger]
                    can(i, Some(v)) && f.ensures((v,), outs[i]->0);
                assert(prev.outcome(items[i], Some(v)));
                assert(outs[i] == Some(outs[i]->0));
            }
        }
        assert(outcomes(chain, items, outs));
    }
}

/// A map that is fused into a fallible chain gives what a map over the chain's whole
/// output gives. It fails only where the chain does, and then with its error.
pub proof fn law_fused_try_map_is_a_map_of_the_output<
    I,
    O,
    P: FusedTryStage<I>,
    F: Fn(P::Output) -> O,
>(chain: SyncMap<P, F>, items: Seq<I>, r: Result<Seq<O>, P::Error>)
    ensures
        match r {
            Ok(values) => try_collects(chain, items, r) <==> exists|mid: Seq<P::Output>| #[trigger]
                succeeds(chain.prev, items, mid) && mapped(chain.f, mid, values),
            Err(e) => try_collects(chain, items, r) ==> try_collects(
                chain.prev,
                items,
                Err::<Seq<P::Output>, P::Error>(e),
            ),
        },
{
    let prev = chain.prev;
    let f = chain.f;
    let n = items.len();
    let can = |i: int, out: Option<P::Output>| prev.try_outcome(items[i], Ok(out));
    match r {
        Ok(values) => {
            lemma_map_lists(can, n, f, values);
            if succeeds(chain, items, values) {
                let outs = choose|outs: Seq<Option<O>>| #[trigger]
                    try_outcomes(chain, items, outs) && values == kept(outs);
                lemma_try_map_lists(chain, items, n, outs);
                let mids = choose|mids: Seq<Option<P::Output>>| #[trigger]
                    lists(can, n, mids) && mapped(f, kept(mids), values);
                assert forall|i: int| 0 <= i < n implies prev.try_outcome(
                    items[i],
                    Ok(#[trigger] mids[i]),
                ) by {
                    assert(can(i, mids[i]));
                }
                assert(try_outcomes(prev, items, mids));
                assert(succeeds(prev, items, kept(mids)));
            }
            if exists|mid: Seq<P::Output>| #[trigger]
                succeeds(prev, items, mid) && mapped(f, mid, values) {
                let mid = choose|mid: Seq<P::Output>| #[trigger]
                    succeeds(prev, items, mid) && mapped(f, mid, values);
                let mids = choose|mids: Seq<Option<P::Output>>| #[trigger]
                    try_outcomes(prev, items, mids) && mid == kept(mids);
                assert(lists(can, n, mids));
                let outs = choose|outs: Seq<Option<O>>| #[trigger]
                    lists(after_map(can, f), n, outs) && values == kept(outs);
                assert forall|i: int| 0 <= i < n implies chain.try_outcome(
                    items[i],
                    Ok(#[trigger] outs[i]),
                ) by {
                    assert(after_map(can, f)(i, outs[i]));
                    if outs[i] is Some {
                        let v = choose|v: P::Output| #[trigger]
                            can(i, Some(v)) && f.ensures((v,), outs[i]->0);
                        assert(prev.try_outcome(items[i], Ok(Some(v))));
                        assert(outs[i] == Some(outs[i]->0));
                    }
                }
                assert(try_outcomes(chain, items, outs));
            }
        },
        Err(e) => {
            if try_collects(chain, items, r) {
                let k = choose|k: int| #[trigger] fails_at(chain, items, k, e);
                let outs = choose|outs: Seq<Option<O>>| #[trigger]
                    try_outcomes(chain, items.take(k), outs);
                let first = items.take(k);
                let mids = Seq::new(
                    k as nat,
                    |i: int|
                        match outs[i] {
                            Some(o) => Some(try_value_behind(prev, f, first[i], o)),
                            None => None,
                        },
                );
                assert forall|i: int| 0 <= i < first.len() implies prev.try_outcome(
                    first[i],
                    Ok(#[trigger] mids[i]),
                ) by {
                    assert(chain.try_outcome(first[i], Ok(outs[i])));
                }
                assert(try_outcomes(prev, first, mids));
                assert(fails_at(prev, items, k, e));
                lemma_first_failure(prev, items, k, e);
            }
        },
    }
}

/// A value of a fallible chain that `f` turned into `o`.
spec fn try_value_behind<I, O, P: FusedTryStage<I>, F: Fn(P::Output) -> O>(
    prev: P,
    f: F,
    item: I,
    o: O,
) -> P::Output {
    choose|v: P::Output| #[trigger] prev.try_outcome(item, Ok(Some(v))) && f.ensures((v,), o)
}

proof fn lemma_try_map_lists<I, O, P: FusedTryStage<I>, F: Fn(P::Output) -> O>(
    chain: SyncMap<P, F>,
    items: Seq<I>,
    n: nat,
    outs: Seq<Option<O>>,
)
    requires
        n == items.len(),
        try_outcomes(chain, items, outs),
    ensures
        lists(
            after_map(
                |i: int, out: Option<P::Output>| chain.prev.try_outcome(items[i], Ok(out)),
                chain.f,
            ),
            n,
            outs,
        ),
{
    let prev = chain.prev;
    let f = chain.f;
    let can = |i: int, out: Option<P::Output>| prev.try_outcome(items[i], Ok(out));
    assert forall|i: int| 0 <= i < n implies after_map(can, f)(i, #[trigger] outs[i]) by {
        assert(chain.try_outcome(items[i], Ok(outs[i])));
        if outs[i] is Some {
            let v = choose|v: P::Output| #[trigger]
                prev.try_outcome(items[i], Ok(Some(v))) && f.ensures((v,), outs[i]->0);
            assert(can(i, Some(v)));
        }
    }
}

/// The values that are marked to pass, in order.
pub open spec fn passing<M>(marked: Seq<(M, bool)>) -> Seq<M>
    decreases marked.len(),
{
    if marked.len() == 0 {
        Seq::empty()
    } else if marked.last().1 {
        passing(marked.drop_last()).push(marked.last().0)
    } else {
        passing(marked.drop_last())
    }
}

/// `marked` are the values of `mid`, each with an answer of `f` for it.
pub open spec fn judged<M, F: Fn(&M) -> bool>(f: F, mid: Seq<M>, marked: Seq<(M, bool)>) -> bool {
    &&& marked.len() == mid.len()
    &&& forall|i: int|
        0 <= i < mid.len() ==> (#[trigger] marked[i]).0 == mid[i] && f.ensures(
            (&mid[i],),
            marked[i].1,
        )
}

/// `r` are the values of `mid` for which `f` holds, in order.
pub open spec fn sifted<M, F: Fn(&M) -> bool>(f: F, mid: Seq<M>, r: Seq<M>) -> bool {
    exists|marked: Seq<(M, bool)>| #[trigger] judged(f, mid, marked) && r == passing(marked)
}

/// What a filter makes of marked values: a gap for each that does not pass.
spec fn let_through<M>(marks: Seq<Option<(M, bool)>>) -> Seq<Option<M>> {
    Seq::new(
        marks.len(),
        |i: int|
            match marks[i] {
                Some((v, true)) => Some(v),
                _ => None,
            },
    )
}

spec fn unmarked<M>(marks: Seq<Option<(M, bool)>>) -> Seq<Option<M>> {
    Seq::new(
        marks.len(),
        |i: int|
            match marks[i] {
                Some((v, _)) => Some(v),
                None => None,
            },
    )
}

proof fn lemma_let_through<M>(marks: Seq<Option<(M, bool)>>)
    ensures
        kept(let_through(marks)) == passing(kept(marks)),
        kept(unmarked(marks)).len() == kept(marks).len(),
        forall|j: int|
            0 <= j < kept(marks).len()
                ==> (#[trigger] kept(marks)[j]).0 == kept(unmarked(marks))[j],
    decreases marks.len(),
{
    if marks.len() > 0 {
        let init = marks.drop_last();
        lemma_let_through(init);
        assert(let_through(marks).drop_last() =~= let_through(init));
        assert(unmarked(marks).drop_last() =~= unmarked(init));
        if marks.last() is Some {
            assert(kept(marks).drop_last() =~= kept(init));
            assert forall|j: int| 0 <= j < kept(marks).len() implies (#[trigger] kept(marks)[j]).0
                == kept(unmarked(marks))[j] by {
                if j < kept(init).len() {
                    assert(kept(marks)[j] == kept(init)[j]);
                }
            }
        }
    }
}

/// What comes out in each place once `f` sifts what `can`.
spec fn after_filter<M, F: Fn(&M) -> bool>(
    can: spec_fn(int, Option<M>) -> bool,
    f: F,
) -> spec_fn(int, Option<M>) -> bool {
    |i: int, out: Option<M>|
        match out {
            Some(w) => can(i, Some(w)) && f.ensures((&w,), true),
            None => can(i, None) || exists|v: M| #[trigger]
                can(i, Some(v)) && f.ensures((&v,), false),
        }
}

/// A value that `f` does not hold for.
spec fn turned_away<M, F: Fn(&M) -> bool>(
    can: spec_fn(int, Option<M>) -> bool,
    f: F,
    i: int,
) -> M {
    choose|v: M| #[trigger] can(i, Some(v)) && f.ensures((&v,), false)
}

/// Sifting in every place comes to sifting what is kept.
proof fn lemma_filter_lists<M, F: Fn(&M) -> bool>(
    can: spec_fn(int, Option<M>) -> bool,
    n: nat,
    f: F,
    r: Seq<M>,
)
    ensures
        (exists|outs: Seq<Option<M>>| #[trigger]
            lists(after_filter(can, f), n, outs) && r == kept(outs)) <==> (exists|
            mids: Seq<Option<M>>,
        | #[trigger] lists(can, n, mids) && sifted(f, kept(mids), r)),
{
    let then_f = after_filter(can, f);
    if exists|outs: Seq<Option<M>>| #[trigger] lists(then_f, n, outs) && r == kept(outs) {
        let outs = choose|outs: Seq<Option<M>>| #[trigger] lists(then_f, n, outs) && r == kept(outs);
        let marks = Seq::new(
            n,
            |i: int|
                match outs[i] {
                    Some(v) => Some((v, true)),
                    None => if can(i, None) {
                        None
                    } else {
                        Some((turned_away(can, f, i), false))
                    },
                },
        );
        let mids = unmarked(marks);
        assert forall|i: int| 0 <= i < n implies can(i, #[trigger] mids[i]) && (marks[i] matches Some(
            (v, b),
        ) ==> f.ensures((&v,), b)) && let_through(marks)[i] == outs[i] by {
            assert(then_f(i, outs[i]));
        }
        assert(lists(can, n, mids));
        assert(let_through(marks) =~= outs);
        lemma_let_through(marks);
        lemma_kept_holds(marks, f);
        let mid = kept(mids);
        let marked = kept(marks);
        assert(judged(f, mid, marked)) by {
            assert forall|j: int| 0 <= j < mid.len() implies (#[trigger] marked[j]).0 == mid[j]
                && f.ensures((&mid[j],), marked[j].1) by {
                assert(kept(marks)[j].0 == mid[j]);
            }
        }
        assert(sifted(f, mid, r));
    }
    if exists|mids: Seq<Option<M>>| #[trigger] lists(can, n, mids) && sifted(f, kept(mids), r) {
        let mids = choose|mids: Seq<Option<M>>| #[trigger]
            lists(can, n, mids) && sifted(f, kept(mids), r);
        let mid = kept(mids);
        let marked = choose|marked: Seq<(M, bool)>| #[trigger]
            judged(f, mid, marked) && r == passing(marked);
        lemma_refilled(mids, marked);
        let marks = refilled(mids, marked);
        lemma_let_through(marks);
        let outs = let_through(marks);
        assert forall|i: int| 0 <= i < n implies then_f(i, #[trigger] outs[i]) by {
            assert(can(i, mids[i]));
            assert(mids[i] is Some <==> marks[i] is Some);
            if mids[i] is Some {
                let j = choose|j: int|
                    0 <= j < marked.len() && #[trigger] kept(mids)[j] == mids[i]->0 && marked[j]
                        == marks[i]->0;
                assert(marked[j].0 == mid[j]);
                let v = mids[i]->0;
                assert(can(i, Some(v)));
                assert(f.ensures((&v,), marked[j].1));
            }
        }
        assert(lists(then_f, n, outs));
    }
}

/// A filter that is fused into a chain lets through what a filter over the chain's
/// whole output lets through.
pub proof fn law_fused_filter_is_a_filter_of_the_output<
    I,
    P: FusedStage<I>,
    F: Fn(&P::Output) -> bool,
>(chain: Filter<P, F>, items: Seq<I>, r: Seq<P::Output>)
    ensures
        collects(chain, items, r) <==> exists|mid: Seq<P::Output>| #[trigger]
            collects(chain.prev, items, mid) && sifted(chain.f, mid, r),
{
    let prev = chain.prev;
    let f = chain.f;
    let n = items.len();
    let can = |i: int, out: Option<P::Output>| prev.outcome(items[i], out);
    lemma_filter_lists(can, n, f, r);
    if collects(chain, items, r) {
        let outs = choose|outs: Seq<Option<P::Output>>| #[trigger]
            outcomes(chain, items, outs) && r == kept(outs);
        assert forall|i: int| 0 <= i < n implies after_filter(can, f)(i, #[trigger] outs[i]) by {
            assert(chain.outcome(items[i], outs[i]));
            if outs[i] is None && !prev.outcome(items[i], None) {
                let v = choose|v: P::Output| #[trigger]
                    prev.outcome(items[i], Some(v)) && f.ensures((&v,), false);
                assert(can(i, Some(v)));
            }
        }
        assert(lists(after_filter(can, f), n, outs));
        let mids = choose|mids: Seq<Option<P::Output>>| #[trigger]
            lists(can, n, mids) && sifted(f, kept(mids), r);
        assert forall|i: int| 0 <= i < n implies prev.outcome(items[i], #[trigger] mids[i]) by {
            assert(can(i, mids[i]));
        }
        assert(outcomes(prev, items, mids));
        assert(collects(prev, items, kept(mids)));
    }
    if exists|mid: Seq<P::Output>| #[trigger] collects(prev, items, mid) && sifted(f, mid, r) {
        let mid = choose|mid: Seq<P::Output>| #[trigger]
            collects(prev, items, mid) && sifted(f, mid, r);
        let mids = choose|mids: Seq<Option<P::Output>>| #[trigger]
            outcomes(prev, items, mids) && mid == kept(mids);
        assert(lists(can, n, mids));
        let outs = choose|outs: Seq<Option<P::Output>>| #[trigger]
            lists(after_filter(can, f), n, outs) && r == kept(outs);
        assert forall|i: int| 0 <= i < n implies chain.outcome(items[i], #[trigger] outs[i]) by {
            assert(after_filter(can, f)(i, outs[i]));
            if outs[i] is None && !can(i, None) {
                let v = choose|v: P::Output| #[trigger]
                    can(i, Some(v)) && f.ensures((&v,), false);
                assert(prev.outcome(items[i], Some(v)));
            }
        }
        assert(outcomes(chain, items, outs));
    }
}

/// A value of a fallible chain that `f` does not hold for.
spec fn try_turned_away<I, P: FusedTryStage<I>, F: Fn(&P::Output) -> bool>(
    prev: P,
    f: F,
    item: I,
) -> P::Output {
    choose|v: P::Output| #[trigger] prev.try_outcome(item, Ok(Some(v))) && f.ensures((&v,), false)
}

/// A filter that is fused into a fallible chain lets through what a filter over the
/// chain's whole output lets through. It fails only where the chain does, and then with
/// its error.
pub proof fn law_fused_try_filter_is_a_filter_of_the_output<
    I,
    P: FusedTryStage<I>,
    F: Fn(&P::Output) -> bool,
>(chain: Filter<P, F>, items: Seq<I>, r: Result<Seq<P::Output>, P::Error>)
    ensures
        match r {
            Ok(values) => try_collects(chain, items, r) <==> exists|mid: Seq<P::Output>| #[trigger]
                succeeds(chain.prev, items, mid) && sifted(chain.f, mid, values),
            Err(_) => try_collects(chain, items, r) ==> try_collects(chain.prev, items, r),
        },
{
    let prev = chain.prev;
    let f = chain.f;
    let n = items.len();
    let can = |i: int, out: Option<P::Output>| prev.try_outcome(items[i], Ok(out));
    match r {
        Ok(values) => {
            lemma_filter_lists(can, n, f, values);
            if succeeds(chain, items, values) {
                let outs = choose|outs: Seq<Option<P::Output>>| #[trigger]
                    try_outcomes(chain, items, outs) && values == kept(outs);
                assert forall|i: int| 0 <= i < n implies after_filter(can, f)(
                    i,
                    #[trigger] outs[i],
                ) by {
                    assert(chain.try_outcome(items[i], Ok(outs[i])));
                    if outs[i] is None && !prev.try_outcome(items[i], Ok(None)) {
                        let v = choose|v: P::Output| #[trigger]
                            prev.try_outcome(items[i], Ok(Some(v))) && f.ensures((&v,), false);
                        assert(can(i, Some(v)));
                    }
                }
                assert(lists(after_filter(can, f), n, outs));
                let mids = choose|mids: Seq<Option<P::Output>>| #[trigger]
                    lists(can, n, mids) && sifted(f, kept(mids), values);
                assert forall|i: int| 0 <= i < n implies prev.try_outcome(
                    items[i],
                    Ok(#[trigger] mids[i]),
                ) by {
                    assert(can(i, mids[i]));
                }
                assert(try_outcomes(prev, items, mids));
                assert(succeeds(prev, items, kept(mids)));
            }
            if exists|mid: Seq<P::Output>| #[trigger]
                succeeds(prev, items, mid) && sifted(f, mid, values) {
                let mid = choose|mid: Seq<P::Output>| #[trigger]
                    succeeds(prev, items, mid) && sifted(f, mid, values);
                let mids = choose|mids: Seq<Option<P::Output>>| #[trigger]
                    try_outcomes(prev, items, mids) && mid == kept(mids);
                assert(lists(can, n, mids));
                let outs = choose|outs: Seq<Option<P::Output>>| #[trigger]
                    lists(after_filter(can, f), n, outs) && values == kept(outs);
                assert forall|i: int| 0 <= i < n implies chain.try_outcome(
                    items[i],
                    Ok(#[trigger] outs[i]),
                ) by {
                    assert(after_filter(can, f)(i, outs[i]));
                    if outs[i] is None && !can(i, None) {
                        let v = choose|v: P::Output| #[trigger]
                            can(i, Some(v)) && f.ensures((&v,), false);
                        assert(prev.try_outcome(items[i], Ok(Some(v))));
                    }
                }
                assert(try_outcomes(chain, items, outs));
            }
        },
        Err(e) => {
            if try_collects(chain, items, r) {
                let k = choose|k: int| #[trigger] fails_at(chain, items, k, e);
                let first = items.take(k);
                let outs = choose|outs: Seq<Option<P::Output>>| #[trigger]
                    try_outcomes(chain, first, outs);
                let mids = Seq::new(
                    k as nat,
                    |i: int|
                        if outs[i] is None && !prev.try_outcome(first[i], Ok(None)) {
                            Some(try_turned_away(prev, f, first[i]))
                        } else {
                            outs[i]
                        },
                );
                assert forall|i: int| 0 <= i < first.len() implies prev.try_outcome(
                    first[i],
                    Ok(#[trigger] mids[i]),
                ) by {
                    assert(chain.try_outcome(first[i], Ok(outs[i])));
                }
                assert(try_outcomes(prev, first, mids));
                assert(fails_at(prev, items, k, e));
            }
        },
    }
}

/// Converting errors within a chain converts the error of the whole result, and leaves
/// the values alone.
pub proof fn law_map_err_converts_the_result<I, E2, P: FusedTryStage<I>, F: Fn(P::Error) -> E2>(
    chain: MapErr<P, F>,
    items: Seq<I>,
    r: Result<Seq<P::Output>, E2>,
)
    ensures
        try_collects(chain, items, r) <==> match r {
            Ok(values) => succeeds(chain.prev, items, values),
            Err(e) => exists|e1: P::Error|
                try_collects(chain.prev, items, Err::<Seq<P::Output>, P::Error>(e1))
                    && #[trigger] chain.f.ensures((e1,), e),
        },
{
    let prev = chain.prev;
    let f = chain.f;
    assert forall|first: Seq<I>, outs: Seq<Option<P::Output>>| #[trigger]
        try_outcomes(chain, first, outs) == #[trigger] try_outcomes(prev, first, outs) by {
        if try_outcomes(chain, first, outs) {
            assert forall|i: int| 0 <= i < first.len() implies prev.try_outcome(
                first[i],
                Ok(#[trigger] outs[i]),
            ) by {
                assert(chain.try_outcome(first[i], Ok(outs[i])));
            }
        }
        if try_outcomes(prev, first, outs) {
            assert forall|i: int| 0 <= i < first.len() implies chain.try_outcome(
                first[i],
                Ok(#[trigger] outs[i]),
            ) by {
                assert(prev.try_outcome(first[i], Ok(outs[i])));
            }
        }
    }
    match r {
        Ok(values) => {
            if succeeds(chain, items, values) {
                let outs = choose|outs: Seq<Option<P::Output>>| #[trigger]
                    try_outcomes(chain, items, outs) && values == kept(outs);
                assert(try_outcomes(prev, items, outs));
            }
            if succeeds(prev, items, values) {
                let outs = choose|outs: Seq<Option<P::Output>>| #[trigger]
                    try_outcomes(prev, items, outs) && values == kept(outs);
                assert(try_outcomes(chain, items, outs));
            }
        },
        Err(e) => {
            if try_collects(chain, items, r) {
                let k = choose|k: int| #[trigger] fails_at(chain, items, k, e);
                let outs = choose|outs: Seq<Option<P::Output>>| #[trigger]
                    try_outcomes(chain, items.take(k), outs);
                assert(try_outcomes(prev, items.take(k), outs));
                assert(chain.try_outcome(items[k], Err(e)));
                let e1 = choose|e1: P::Error| #[trigger]
                    prev.try_outcome(items[k], Err(e1)) && f.ensures((e1,), e);
                assert(fails_at(prev, items, k, e1));
                lemma_first_failure(prev, items, k, e1);
                assert(f.ensures((e1,), e));
            }
            if exists|e1: P::Error|
                try_collects(prev, items, Err::<Seq<P::Output>, P::Error>(e1))
                    && #[trigger] f.ensures((e1,), e) {
                let e1 = choose|e1: P::Error|
                    try_collects(prev, items, Err::<Seq<P::Output>, P::Error>(e1))
                        && #[trigger] f.ensures((e1,), e);
                let k = choose|k: int| #[trigger] fails_at(prev, items, k, e1);
                let outs = choose|outs: Seq<Option<P::Output>>| #[trigger]
                    try_outcomes(prev, items.take(k), outs);
                assert(try_outcomes(chain, items.take(k), outs));
                assert(prev.try_outcome(items[k], Err(e1)));
                assert(fails_at(chain, items, k, e));
                lemma_first_failure(chain, items, k, e);
            }
        },
    }
}

/// Errors of a stage that comes after the conversion are not converted: an item fails
/// with a converted error of the stages before, or with an error of that stage as it is.
pub proof fn law_later_errors_are_left_alone<
    I,
    O,
    E1,
    E2,
    P: FusedTryStage<I, Error = E1>,
    F: Fn(E1) -> E2,
    G: Fn(P::Output) -> Result<O, E2>,
>(chain: TryMap<MapErr<P, F>, G>, item: I, e: E2)
    ensures
        chain.try_outcome(item, Err::<Option<O>, E2>(e)) <==> {
            ||| exists|e1: E1| #[trigger]
                chain.prev.prev.try_outcome(item, Err(e1)) && chain.prev.f.ensures((e1,), e)
            ||| exists|v: P::Output| #[trigger]
                chain.prev.prev.try_outcome(item, Ok(Some(v))) && chain.f.ensures((v,), Err(e))
        },
{
    law_a_fallible_stage_adds_its_errors(chain, item, e);
    if exists|v: P::Output| #[trigger]
        chain.prev.prev.try_outcome(item, Ok(Some(v))) && chain.f.ensures((v,), Err(e)) {
        let v = choose|v: P::Output| #[trigger]
            chain.prev.prev.try_outcome(item, Ok(Some(v))) && chain.f.ensures((v,), Err(e));
        assert(chain.prev.try_outcome(item, Ok(Some(v))));
    }
}

/// An item fails where the stages before fail, or where `f` fails on what they give.
pub proof fn law_a_fallible_stage_adds_its_errors<
    I,
    O,
    E,
    P: FusedTryStage<I, Error = E>,
    F: Fn(P::Output) -> Result<O, E>,
>(chain: TryMap<P, F>, item: I, e: E)
    ensures
        chain.try_outcome(item, Err::<Option<O>, E>(e)) <==> {
            ||| chain.prev.try_outcome(item, Err(e))
            ||| exists|v: P::Output| #[trigger]
                chain.prev.try_outcome(item, Ok(Some(v))) && chain.f.ensures((v,), Err(e))
        },
{
    lemma_try_map_fails(chain, item, e);
}

proof fn lemma_try_map_fails<
    I,
    O,
    E,
    P: FusedTryStage<I, Error = E>,
    F: Fn(P::Output) -> Result<O, E>,
>(chain: TryMap<P, F>, item: I, e: E)
    ensures
        chain.try_outcome(item, Err::<Option<O>, E>(e)) <==> {
            ||| chain.prev.try_outcome(item, Err(e))
            ||| exists|v: P::Output| #[trigger]
                chain.prev.try_outcome(item, Ok(Some(v))) && chain.f.ensures((v,), Err(e))
        },
{
}

/// What holds of every mark holds of every mark that is kept.
proof fn lemma_kept_holds<M, F: Fn(&M) -> bool>(marks: Seq<Option<(M, bool)>>, f: F)
    requires
        forall|i: int|
            0 <= i < marks.len() ==> ((#[trigger] marks[i]) matches Some((v, b)) ==> f.ensures(
                (&v,),
                b,
            )),
    ensures
        forall|j: int|
            0 <= j < kept(marks).len() ==> f.ensures(
                (&(#[trigger] kept(marks)[j]).0,),
                kept(marks)[j].1,
            ),
    decreases marks.len(),
{
    if marks.len() > 0 {
        let init = marks.drop_last();
        assert forall|i: int| 0 <= i < init.len() implies ((#[trigger] init[i]) matches Some((v, b))
            ==> f.ensures((&v,), b)) by {
            assert(init[i] == marks[i]);
        }
        lemma_kept_holds(init, f);
        let last = marks[marks.len() - 1];
        assert forall|j: int| 0 <= j < kept(marks).len() implies f.ensures(
            (&(#[trigger] kept(marks)[j]).0,),
            kept(marks)[j].1,
        ) by {
            if j < kept(init).len() {
                assert(kept(marks)[j] == kept(init)[j]);
            } else {
                assert(last == Some(kept(marks)[j]));
            }
        }
    }
}

/// A chain without stages returns the items as they are.
pub proof fn law_no_stage_changes_nothing<T>(items: Seq<T>, r: Seq<T>)
    ensures
        collects(Identity, items, r) <==> r == items,
        accepts_all(Identity, items),
{
    if collects(Identity, items, r) {
        let outs = choose|outs: Seq<Option<T>>| #[trigger]
            outcomes(Identity, items, outs) && r == kept(outs);
        assert(outs =~= Seq::new(items.len(), |i: int| Some(items[i])));
        lemma_kept_values(items);
    }
    if r == items {
        let outs = Seq::new(items.len(), |i: int| Some(items[i]));
        lemma_kept_values(items);
        assert(outcomes(Identity, items, outs));
    }
}

/// A fallible chain without stages returns the items as they are, and never fails.
pub proof fn law_no_fallible_stage_changes_nothing<T>(
    items: Seq<T>,
    r: Result<Seq<T>, std::convert::Infallible>,
)
    ensures
        try_collects(Identity, items, r) <==> r == Ok::<Seq<T>, std::convert::Infallible>(items),
        try_accepts_all(Identity, items),
{
    let same = Seq::new(items.len(), |i: int| Some(items[i]));
    lemma_kept_values(items);
    match r {
        Ok(values) => {
            if succeeds(Identity, items, values) {
                let outs = choose|outs: Seq<Option<T>>| #[trigger]
                    try_outcomes(Identity, items, outs) && values == kept(outs);
                assert(outs =~= same);
            }
            assert(try_outcomes(Identity, items, same));
        },
        Err(e) => {
            if try_collects(Identity, items, r) {
                let k = choose|k: int| #[trigger] fails_at(Identity, items, k, e);
                assert(Identity.try_outcome(items[k], Err(e)));
            }
        },
    }
}

/// Nothing comes of no items. What comes of one item more is what came before it and,
/// behind that, its own value, unless it is dropped.
pub proof fn law_items_are_handled_one_by_one<T, S: FusedStage<T>>(
    stages: S,
    items: Seq<T>,
    item: T,
    r: Seq<S::Output>,
)
    ensures
        collects(stages, Seq::<T>::empty(), r) <==> r == Seq::<S::Output>::empty(),
        collects(stages, items.push(item), r) <==> {
            ||| collects(stages, items, r) && stages.outcome(item, None)
            ||| r.len() > 0 && collects(stages, items, r.drop_last()) && stages.outcome(
                item,
                Some(r.last()),
            )
        },
{
    assert(outcomes(stages, Seq::empty(), Seq::empty()));
    assert(kept(Seq::<Option<S::Output>>::empty()) =~= Seq::empty());
    if collects(stages, Seq::<T>::empty(), r) {
        let outs = choose|outs: Seq<Option<S::Output>>| #[trigger]
            outcomes(stages, Seq::<T>::empty(), outs) && r == kept(outs);
        assert(outs =~= Seq::empty());
    }
    let all = items.push(item);
    if collects(stages, all, r) {
        let outs = choose|outs: Seq<Option<S::Output>>| #[trigger]
            outcomes(stages, all, outs) && r == kept(outs);
        let init = outs.drop_last();
        assert forall|i: int| 0 <= i < items.len() implies stages.outcome(
            items[i],
            #[trigger] init[i],
        ) by {
            assert(all[i] == items[i]);
            assert(init[i] == outs[i]);
        }
        assert(outcomes(stages, items, init));
        assert(all[items.len() as int] == item);
        assert(stages.outcome(item, outs[items.len() as int]));
        if outs.last() is Some {
            assert(r.drop_last() =~= kept(init));
        }
    }
    if collects(stages, items, r) && stages.outcome(item, None) {
        let init = choose|outs: Seq<Option<S::Output>>| #[trigger]
            outcomes(stages, items, outs) && r == kept(outs);
        lemma_outcome_next(stages, items, init, item, None);
    }
    if r.len() > 0 && collects(stages, items, r.drop_last()) && stages.outcome(
        item,
        Some(r.last()),
    ) {
        let init = choose|outs: Seq<Option<S::Output>>| #[trigger]
            outcomes(stages, items, outs) && r.drop_last() == kept(outs);
        lemma_outcome_next(stages, items, init, item, Some(r.last()));
        assert(r =~= r.drop_last().push(r.last()));
    }
}

/// A list of outcomes goes on with that of the next item.
proof fn lemma_outcome_next<T, S: FusedStage<T>>(
    stages: S,
    items: Seq<T>,
    outs: Seq<Option<S::Output>>,
    item: T,
    out: Option<S::Output>,
)
    requires
        outcomes(stages, items, outs),
        stages.outcome(item, out),
    ensures
        outcomes(stages, items.push(item), outs.push(out)),
        kept(outs.push(out)) == match out {
            Some(v) => kept(outs).push(v),
            None => kept(outs),
        },
{
    let all = items.push(item);
    let more = outs.push(out);
    assert(more.drop_last() =~= outs);
    assert forall|i: int| 0 <= i < all.len() implies stages.outcome(all[i], #[trigger] more[i]) by {
        if i < items.len() {
            assert(more[i] == outs[i]);
        }
    }
}

/// A fence in a fused chain changes nothing: the same items are accepted, and the same
/// values come out.
pub proof fn law_a_fence_passes_everything_on<I, P: FusedStage<I>>(
    chain: Fence<P>,
    items: Seq<I>,
    r: Seq<P::Output>,
)
    ensures
        collects(chain, items, r) <==> collects(chain.prev, items, r),
        accepts_all(chain, items) <==> accepts_all(chain.prev, items),
{
    lemma_same_outcomes(chain, chain.prev, items, r);
}

/// To ask for output in input order changes nothing in a fused chain, which keeps that
/// order anyway.
pub proof fn law_asking_for_order_changes_nothing<I, P: FusedStage<I>>(
    chain: Ordered<P>,
    items: Seq<I>,
    r: Seq<P::Output>,
)
    ensures
        collects(chain, items, r) <==> collects(chain.prev, items, r),
        accepts_all(chain, items) <==> accepts_all(chain.prev, items),
{
    lemma_same_outcomes(chain, chain.prev, items, r);
}

/// Chains that make the same of every item return the same.
proof fn lemma_same_outcomes<I, O, A: FusedStage<I, Output = O>, B: FusedStage<I, Output = O>>(
    a: A,
    b: B,
    items: Seq<I>,
    r: Seq<O>,
)
    requires
        forall|item: I, out: Option<O>|
            #![trigger a.outcome(item, out)]
            #![trigger b.outcome(item, out)]
            a.outcome(item, out) <==> b.outcome(item, out),
        forall|item: I|
            #![trigger a.accepts(item)]
            #![trigger b.accepts(item)]
            a.accepts(item) <==> b.accepts(item),
    ensures
        collects(a, items, r) <==> collects(b, items, r),
        accepts_all(a, items) <==> accepts_all(b, items),
{
    if collects(a, items, r) {
        let outs = choose|outs: Seq<Option<O>>| #[trigger]
            outcomes(a, items, outs) && r == kept(outs);
        assert(outcomes(b, items, outs));
    }
    if collects(b, items, r) {
        let outs = choose|outs: Seq<Option<O>>| #[trigger]
            outcomes(b, items, outs) && r == kept(outs);
        assert(outcomes(a, items, outs));
    }
}

/// An infallible chain as the start of a fallible one gives every item what it gave it
/// before, and never fails.
pub proof fn law_an_infallible_chain_never_fails<I, E, S: FusedStage<I>>(
    chain: InfallibleChain<S, E>,
    items: Seq<I>,
    item: I,
    o: Option<S::Output>,
    r: Result<Seq<S::Output>, E>,
)
    ensures
        chain.try_outcome(item, Ok::<Option<S::Output>, E>(o)) <==> chain.0.outcome(item, o),
        forall|e: E| !#[trigger] chain.try_outcome(item, Err::<Option<S::Output>, E>(e)),
        try_collects(chain, items, r) <==> (r matches Ok(values) && collects(
            chain.0,
            items,
            values,
        )),
        try_accepts_all(chain, items) <==> accepts_all(chain.0, items),
{
    match r {
        Ok(values) => {
            if succeeds(chain, items, values) {
                let outs = choose|outs: Seq<Option<S::Output>>| #[trigger]
                    try_outcomes(chain, items, outs) && values == kept(outs);
                assert(outcomes(chain.0, items, outs));
            }
            if collects(chain.0, items, values) {
                let outs = choose|outs: Seq<Option<S::Output>>| #[trigger]
                    outcomes(chain.0, items, outs) && values == kept(outs);
                assert(try_outcomes(chain, items, outs));
            }
        },
        Err(e) => {
            if try_collects(chain, items, r) {
                let k = choose|k: int| #[trigger] fails_at(chain, items, k, e);
                assert(chain.try_outcome(items[k], Err::<Option<S::Output>, E>(e)));
            }
        },
    }
}

/// A fallible chain handles items one by one, up to the first that fails: no items give no
/// values; with one item more, an error of those before it stays, and where they all
/// passed, its own error is returned or its value comes behind theirs.
pub proof fn law_the_first_failure_ends_a_run<T, S: FusedTryStage<T>>(
    stages: S,
    items: Seq<T>,
    item: T,
    r: Result<Seq<S::Output>, S::Error>,
)
    ensures
        try_collects(stages, Seq::<T>::empty(), r) <==> r == Ok::<Seq<S::Output>, S::Error>(
            Seq::empty(),
        ),
        try_collects(stages, items.push(item), r) <==> match r {
            Ok(values) => {
                ||| try_collects(stages, items, Ok::<Seq<S::Output>, S::Error>(values))
                    && stages.try_outcome(item, Ok(None))
                ||| values.len() > 0 && try_collects(
                    stages,
                    items,
                    Ok::<Seq<S::Output>, S::Error>(values.drop_last()),
                ) && stages.try_outcome(item, Ok(Some(values.last())))
            },
            Err(e) => {
                ||| try_collects(stages, items, Err::<Seq<S::Output>, S::Error>(e))
                ||| stages.try_outcome(item, Err(e)) && exists|values: Seq<S::Output>| #[trigger]
                    succeeds(stages, items, values)
            },
        },
{
    let none = Seq::<T>::empty();
    assert(try_outcomes(stages, none, Seq::empty()));
    assert(kept(Seq::<Option<S::Output>>::empty()) =~= Seq::empty());
    let all = items.push(item);
    match r {
        Ok(values) => {
            if succeeds(stages, none, values) {
                let outs = choose|outs: Seq<Option<S::Output>>| #[trigger]
                    try_outcomes(stages, none, outs) && values == kept(outs);
                assert(outs =~= Seq::empty());
            }
            if succeeds(stages, all, values) {
                let outs = choose|outs: Seq<Option<S::Output>>| #[trigger]
                    try_outcomes(stages, all, outs) && values == kept(outs);
                let init = outs.drop_last();
                assert forall|i: int| 0 <= i < items.len() implies stages.try_outcome(
                    items[i],
                    Ok(#[trigger] init[i]),
                ) by {
                    assert(all[i] == items[i]);
                    assert(init[i] == outs[i]);
                }
                assert(try_outcomes(stages, items, init));
                assert(all[items.len() as int] == item);
                assert(stages.try_outcome(item, Ok(outs[items.len() as int])));
                if outs.last() is Some {
                    assert(values.drop_last() =~= kept(init));
                }
            }
            if succeeds(stages, items, values) && stages.try_outcome(item, Ok(None)) {
                let init = choose|outs: Seq<Option<S::Output>>| #[trigger]
                    try_outcomes(stages, items, outs) && values == kept(outs);
                lemma_try_outcome_next(stages, items, init, item, None);
            }
            if values.len() > 0 && succeeds(stages, items, values.drop_last())
                && stages.try_outcome(item, Ok(Some(values.last()))) {
                let init = choose|outs: Seq<Option<S::Output>>| #[trigger]
                    try_outcomes(stages, items, outs) && values.drop_last() == kept(outs);
                lemma_try_outcome_next(stages, items, init, item, Some(values.last()));
                assert(values =~= values.drop_last().push(values.last()));
            }
        },
        Err(e) => {
            if try_collects(stages, all, r) {
                let k = choose|k: int| #[trigger] fails_at(stages, all, k, e);
                if k < items.len() {
                    assert(all.take(k) =~= items.take(k));
                    assert(fails_at(stages, items, k, e));
                    lemma_first_failure(stages, items, k, e);
                } else {
                    assert(all.take(k) =~= items);
                    let outs = choose|outs: Seq<Option<S::Output>>| #[trigger]
                        try_outcomes(stages, all.take(k), outs);
                    assert(succeeds(stages, items, kept(outs)));
                }
            }
            if try_collects(stages, items, Err::<Seq<S::Output>, S::Error>(e)) {
                let k = choose|k: int| #[trigger] fails_at(stages, items, k, e);
                assert(all.take(k) =~= items.take(k));
                assert(fails_at(stages, all, k, e));
            }
            if stages.try_outcome(item, Err(e)) && exists|values: Seq<S::Output>| #[trigger]
                succeeds(stages, items, values) {
                let values = choose|values: Seq<S::Output>| #[trigger]
                    succeeds(stages, items, values);
                let outs = choose|outs: Seq<Option<S::Output>>| #[trigger]
                    try_outcomes(stages, items, outs) && values == kept(outs);
                let k = items.len() as int;
                assert(all.take(k) =~= items);
                assert(fails_at(stages, all, k, e));
            }
        },
    }
}

/// A list of outcomes of items that passed goes on with that of the next one.
proof fn lemma_try_outcome_next<T, S: FusedTryStage<T>>(
    stages: S,
    items: Seq<T>,
    outs: Seq<Option<S::Output>>,
    item: T,
    out: Option<S::Output>,
)
    requires
        try_outcomes(stages, items, outs),
        stages.try_outcome(item, Ok(out)),
    ensures
        try_outcomes(stages, items.push(item), outs.push(out)),
        kept(outs.push(out)) == match out {
            Some(v) => kept(outs).push(v),
            None => kept(outs),
        },
{
    let all = items.push(item);
    let more = outs.push(out);
    assert(more.drop_last() =~= outs);
    assert forall|i: int| 0 <= i < all.len() implies stages.try_outcome(
        all[i],
        Ok(#[trigger] more[i]),
    ) by {
        if i < items.len() {
            assert(more[i] == outs[i]);
        }
    }
}

/// A fallible stage that is fused into a chain and passes everything gives what it gives
/// over the chain's whole output.
pub proof fn law_a_fallible_stage_maps_the_output<
    I,
    O,
    E,
    P: FusedTryStage<I, Error = E>,
    F: Fn(P::Output) -> Result<O, E>,
>(chain: TryMap<P, F>, items: Seq<I>, r: Seq<O>)
    ensures
        succeeds(chain, items, r) <==> exists|mid: Seq<P::Output>| #[trigger]
            succeeds(chain.prev, items, mid) && mid.len() == r.len() && forall|i: int|
                0 <= i < mid.len() ==> chain.f.ensures((mid[i],), Ok(#[trigger] r[i])),
    decreases items.len(),
{
    if items.len() == 0 {
        assert(items =~= Seq::empty());
        law_the_first_failure_ends_a_run(chain, items, vstd::pervasive::arbitrary(), Ok(r));
        let none = Seq::<P::Output>::empty();
        law_the_first_failure_ends_a_run(chain.prev, items, vstd::pervasive::arbitrary(), Ok(none));
        if succeeds(chain, items, r) {
            assert(succeeds(chain.prev, items, none));
        }
        if exists|mid: Seq<P::Output>| #[trigger]
            succeeds(chain.prev, items, mid) && mid.len() == r.len() {
            let mid = choose|mid: Seq<P::Output>| #[trigger]
                succeeds(chain.prev, items, mid) && mid.len() == r.len();
            law_the_first_failure_ends_a_run(
                chain.prev,
                items,
                vstd::pervasive::arbitrary(),
                Ok(mid),
            );
            assert(r =~= Seq::empty());
        }
    } else {
        let init = items.drop_last();
        let item = items.last();
        assert(items =~= init.push(item));
        law_a_fallible_stage_maps_the_output(chain, init, r);
        law_the_first_failure_ends_a_run(chain, init, item, Ok(r));
        if r.len() > 0 {
            law_a_fallible_stage_maps_the_output(chain, init, r.drop_last());
        }
        if succeeds(chain, items, r) {
            if succeeds(chain, init, r) && chain.try_outcome(item, Ok(None)) {
                let mid = choose|mid: Seq<P::Output>| #[trigger]
                    succeeds(chain.prev, init, mid) && mid.len() == r.len() && forall|i: int|
                        0 <= i < mid.len() ==> chain.f.ensures((mid[i],), Ok(#[trigger] r[i]));
                law_the_first_failure_ends_a_run(chain.prev, init, item, Ok(mid));
                assert(succeeds(chain.prev, items, mid));
            } else {
                let less = r.drop_last();
                let mid0 = choose|mid: Seq<P::Output>| #[trigger]
                    succeeds(chain.prev, init, mid) && mid.len() == less.len() && forall|i: int|
                        0 <= i < mid.len() ==> chain.f.ensures((mid[i],), Ok(#[trigger] less[i]));
                let v = choose|v: P::Output| #[trigger]
                    chain.prev.try_outcome(item, Ok(Some(v))) && chain.f.ensures(
                        (v,),
                        Ok(r.last()),
                    );
                let mid = mid0.push(v);
                assert(mid.drop_last() =~= mid0);
                law_the_first_failure_ends_a_run(chain.prev, init, item, Ok(mid));
                assert forall|i: int| 0 <= i < mid.len() implies chain.f.ensures(
                    (mid[i],),
                    Ok(#[trigger] r[i]),
                ) by {
                    if i < mid0.len() {
                        assert(less[i] == r[i]);
                    }
                }
                assert(succeeds(chain.prev, items, mid));
            }
        }
        if exists|mid: Seq<P::Output>| #[trigger]
            succeeds(chain.prev, items, mid) && mid.len() == r.len() && forall|i: int|
                0 <= i < mid.len() ==> chain.f.ensures((mid[i],), Ok(#[trigger] r[i])) {
            let mid = choose|mid: Seq<P::Output>| #[trigger]
                succeeds(chain.prev, items, mid) && mid.len() == r.len() && forall|i: int|
                    0 <= i < mid.len() ==> chain.f.ensures((mid[i],), Ok(#[trigger] r[i]));
            law_the_first_failure_ends_a_run(chain.prev, init, item, Ok(mid));
            if succeeds(chain.prev, init, mid) && chain.prev.try_outcome(item, Ok(None)) {
                assert(succeeds(chain, init, r));
                assert(chain.try_outcome(item, Ok(None)));
            } else {
                let mid0 = mid.drop_last();
                let less = r.drop_last();
                assert forall|i: int| 0 <= i < mid0.len() implies chain.f.ensures(
                    (mid0[i],),
                    Ok(#[trigger] less[i]),
                ) by {
                    assert(less[i] == r[i]);
                    assert(mid0[i] == mid[i]);
                }
                assert(succeeds(chain.prev, init, mid0));
                let last = r.len() - 1;
                assert(chain.f.ensures((mid[last],), Ok(r[last])));
                assert(chain.prev.try_outcome(item, Ok(Some(mid.last()))));
                assert(chain.try_outcome(item, Ok(Some(r.last()))));
            }
        }
    }
}

/// A chain that ends in calls of `f` calls it on the values that a run can return.
pub proof fn law_what_is_fed_is_what_is_collected<T, S: FusedStage<T>, F: Fn(S::Output)>(
    stages: S,
    items: Seq<T>,
    f: F,
)
    ensures
        feeds(stages, items, f) <==> exists|r: Seq<S::Output>| #[trigger]
            collects(stages, items, r) && forall|i: int|
                0 <= i < r.len() ==> f.ensures((#[trigger] r[i],), ()),
{
    if feeds(stages, items, f) {
        let outs = choose|outs: Seq<Option<S::Output>>| #[trigger]
            outcomes(stages, items, outs) && forall|i: int|
                0 <= i < kept(outs).len() ==> f.ensures((#[trigger] kept(outs)[i],), ());
        assert(collects(stages, items, kept(outs)));
    }
    if exists|r: Seq<S::Output>| #[trigger]
        collects(stages, items, r) && forall|i: int|
            0 <= i < r.len() ==> f.ensures((#[trigger] r[i],), ()) {
        let r = choose|r: Seq<S::Output>| #[trigger]
            collects(stages, items, r) && forall|i: int|
                0 <= i < r.len() ==> f.ensures((#[trigger] r[i],), ());
        let outs = choose|outs: Seq<Option<S::Output>>| #[trigger]
            outcomes(stages, items, outs) && r == kept(outs);
    }
}

/// Nothing more is asked of the items of a chain than that its stages may be called on what
/// reaches them, one after the other.
pub proof fn law_stages_are_called_on_what_reaches_them<
    I,
    O,
    P: FusedStage<I>,
    F: Fn(P::Output) -> O,
    G: Fn(&P::Output) -> bool,
>(map: SyncMap<P, F>, filter: Filter<P, G>, items: Seq<I>)
    ensures
        accepts_all(map, items) <==> accepts_all(map.prev, items) && forall|
            i: int,
            v: P::Output,
        |
            0 <= i < items.len() && #[trigger] map.prev.outcome(items[i], Some(v))
                ==> map.f.requires((v,)),
        accepts_all(filter, items) <==> accepts_all(filter.prev, items) && forall|
            i: int,
            v: P::Output,
        |
            0 <= i < items.len() && #[trigger] filter.prev.outcome(items[i], Some(v))
                ==> filter.f.requires((&v,)),
{
    if accepts_all(map, items) {
        assert forall|i: int| 0 <= i < items.len() implies map.prev.accepts(#[trigger] items[i]) by {
            assert(map.accepts(items[i]));
        }
        assert forall|i: int, v: P::Output|
            0 <= i < items.len() && #[trigger] map.prev.outcome(items[i], Some(v)) implies map.f.requires(
        (v,)) by {
            assert(map.accepts(items[i]));
        }
    }
    if accepts_all(filter, items) {
        assert forall|i: int| 0 <= i < items.len() implies filter.prev.accepts(
            #[trigger] items[i],
        ) by {
            assert(filter.accepts(items[i]));
        }
        assert forall|i: int, v: P::Output|
            0 <= i < items.len() && #[trigger] filter.prev.outcome(
                items[i],
                Some(v),
            ) implies filter.f.requires((&v,)) by {
            assert(filter.accepts(items[i]));
        }
    }
}

/// The same of a fallible chain; what converts its errors may be called on every error that
/// the stages before can fail with.
pub proof fn law_fallible_stages_are_called_on_what_reaches_them<
    I,
    O,
    E,
    E2,
    P: FusedTryStage<I, Error = E>,
    F: Fn(P::Output) -> Result<O, E>,
    G: Fn(E) -> E2,
>(fallible: TryMap<P, F>, convert: MapErr<P, G>, items: Seq<I>)
    ensures
        try_accepts_all(fallible, items) <==> try_accepts_all(fallible.prev, items) && forall|
            i: int,
            v: P::Output,
        |
            0 <= i < items.len() && #[trigger] fallible.prev.try_outcome(items[i], Ok(Some(v)))
                ==> fallible.f.requires((v,)),
        try_accepts_all(convert, items) <==> try_accepts_all(convert.prev, items) && forall|
            i: int,
            e: E,
        |
            0 <= i < items.len() && #[trigger] convert.prev.try_outcome(items[i], Err(e))
                ==> convert.f.requires((e,)),
{
    if try_accepts_all(fallible, items) {
        assert forall|i: int| 0 <= i < items.len() implies fallible.prev.try_accepts(
            #[trigger] items[i],
        ) by {
            assert(fallible.try_accepts(items[i]));
        }
        assert forall|i: int, v: P::Output|
            0 <= i < items.len() && #[trigger] fallible.prev.try_outcome(
                items[i],
                Ok(Some(v)),
            ) implies fallible.f.requires((v,)) by {
            assert(fallible.try_accepts(items[i]));
        }
    }
    if try_accepts_all(convert, items) {
        assert forall|i: int| 0 <= i < items.len() implies convert.prev.try_accepts(
            #[trigger] items[i],
        ) by {
            assert(convert.try_accepts(items[i]));
        }
        assert forall|i: int, e: E|
            0 <= i < items.len() && #[trigger] convert.prev.try_outcome(
                items[i],
                Err(e),
            ) implies convert.f.requires((e,)) by {
            assert(convert.try_accepts(items[i]));
        }
    }
}

} // verus!
