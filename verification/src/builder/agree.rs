//! Ways to run the same stages that come to the same.
use crate::builder::flow::{
    law_a_run_in_any_order_returns_the_same_values, law_a_run_maps_the_run_before_the_stage,
    law_a_run_without_stages_returns_the_items,
};
use crate::builder::fusion::{
    law_a_fallible_stage_adds_its_errors, law_a_fallible_stage_maps_the_output,
    law_an_infallible_chain_never_fails, law_fused_map_is_a_map_of_the_output,
    law_no_stage_changes_nothing, mapped,
};
use crate::builder::pipeline::{
    all_pass, chunk_of, chunk_parts, chunk_results, chunk_yields, chunks_in, fails_first, joined,
    lemma_joined_add, map_results, may_pass, try_map_results,
};
use crate::builder::stage::{
    FusedStage, FusedTryStage, Identity, InfallibleChain, SyncMap, TryMap, collects, fails_at,
    lemma_first_failure, result_view, succeeds, try_collects, try_outcomes,
};
use crate::builder::stream_pipe::{StreamStart, SyncStage, streamed};
use crate::builder::stream_pipeline::{expanded_by, ran, ran_nested, ran_twice, staged};
use std::marker::PhantomData;
use vstd::prelude::*;

verus! {

/// A parallel map is a pipeline with one stage.
pub proof fn law_a_parallel_map_is_a_pipeline_of_one_stage<T, R, F: Fn(T) -> R>(
    f: F,
    items: Seq<T>,
    r: Seq<R>,
)
    ensures
        map_results(f, items, r) <==> collects(SyncMap { prev: Identity, f }, items, r),
{
    let chain = SyncMap { prev: Identity, f };
    law_fused_map_is_a_map_of_the_output(chain, items, r);
    law_no_stage_changes_nothing(items, items);
    if map_results(f, items, r) {
        assert(collects(chain.prev, items, items));
        assert(mapped(f, items, r));
    }
    if collects(chain, items, r) {
        let mid = choose|mid: Seq<T>| #[trigger]
            collects(chain.prev, items, mid) && mapped(chain.f, mid, r);
        law_no_stage_changes_nothing(items, mid);
    }
}

/// A fallible parallel map is a fallible pipeline with one stage: it returns all values,
/// or the error of the first item that fails.
pub proof fn law_a_fallible_parallel_map_is_a_pipeline_of_one_stage<
    T,
    R,
    E,
    F: Fn(T) -> Result<R, E>,
>(f: F, items: Seq<T>, r: Result<Vec<R>, E>)
    ensures
        try_map_results(f, items, r) <==> try_collects(
            TryMap { prev: InfallibleChain::<Identity, E>(Identity, PhantomData), f },
            items,
            result_view(r),
        ),
{
    let start = InfallibleChain::<Identity, E>(Identity, PhantomData);
    let chain = TryMap { prev: start, f };
    match r {
        Ok(values) => {
            let v = values@;
            law_a_fallible_stage_maps_the_output(chain, items, v);
            if all_pass(f, items, v) {
                law_an_infallible_chain_never_fails(
                    start,
                    items,
                    vstd::pervasive::arbitrary(),
                    None,
                    Ok(items),
                );
                law_no_stage_changes_nothing(items, items);
                assert(succeeds(chain.prev, items, items));
            }
            if succeeds(chain, items, v) {
                let mid = choose|mid: Seq<T>| #[trigger]
                    succeeds(chain.prev, items, mid) && mid.len() == v.len() && forall|i: int|
                        0 <= i < mid.len() ==> chain.f.ensures((mid[i],), Ok(#[trigger] v[i]));
                law_an_infallible_chain_never_fails(
                    start,
                    items,
                    vstd::pervasive::arbitrary(),
                    None,
                    Ok(mid),
                );
                law_no_stage_changes_nothing(items, mid);
            }
        },
        Err(e) => {
            if try_map_results(f, items, r) {
                let k = choose|k: int| #[trigger] fails_first(f, items, k, e);
                let outs = Seq::new(k as nat, |i: int| Some(value_of::<T, R, E, F>(f, items[i])));
                assert forall|i: int| 0 <= i < k implies chain.try_outcome(
                    items.take(k)[i],
                    Ok(#[trigger] outs[i]),
                ) by {
                    assert(may_pass(f, items[i]));
                    assert(chain.prev.try_outcome(items[i], Ok(Some(items[i]))));
                }
                assert(try_outcomes(chain, items.take(k), outs));
                law_a_fallible_stage_adds_its_errors(chain, items[k], e);
                assert(chain.prev.try_outcome(items[k], Ok(Some(items[k]))));
                assert(fails_at(chain, items, k, e));
                lemma_first_failure(chain, items, k, e);
            }
            if try_collects(chain, items, result_view(r)) {
                let k = choose|k: int| #[trigger] fails_at(chain, items, k, e);
                law_a_fallible_stage_adds_its_errors(chain, items[k], e);
                let outs = choose|outs: Seq<Option<R>>| #[trigger]
                    try_outcomes(chain, items.take(k), outs);
                assert forall|j: int| 0 <= j < k implies may_pass(f, #[trigger] items[j]) by {
                    assert(items.take(k)[j] == items[j]);
                    assert(chain.try_outcome(items[j], Ok(outs[j])));
                    match outs[j] {
                        Some(o) => {
                            let v = choose|v: T| #[trigger]
                                chain.prev.try_outcome(items[j], Ok(Some(v))) && f.ensures(
                                    (v,),
                                    Ok(o),
                                );
                            assert(f.ensures((items[j],), Ok::<R, E>(o)));
                        },
                        None => {
                            assert(chain.prev.try_outcome(items[j], Ok(None)));
                        },
                    }
                }
                assert(fails_first(f, items, k, e));
            }
        },
    }
}

/// A value that `f` can return for `item`.
spec fn value_of<T, R, E, F: Fn(T) -> Result<R, E>>(f: F, item: T) -> R {
    choose|v: R| #[trigger] f.ensures((item,), Ok::<R, E>(v))
}

/// The contents of some parts, joined.
pub proof fn law_joining_is_flattening<R>(parts: Seq<Vec<R>>)
    ensures
        joined(parts) == Seq::new(parts.len(), |i: int| parts[i]@).flatten(),
    decreases parts.len(),
{
    let plain = Seq::new(parts.len(), |i: int| parts[i]@);
    if parts.len() > 0 {
        let init = parts.drop_last();
        law_joining_is_flattening(init);
        assert(plain.drop_last() =~= Seq::new(init.len(), |i: int| init[i]@));
        assert(plain =~= plain.drop_last().push(plain.last()));
        plain.drop_last().lemma_flatten_push(plain.last());
    } else {
        assert(plain =~= Seq::empty());
        assert(joined(parts) =~= plain.flatten());
    }
}

/// A map over chunks takes `size` items off the front, or what is left, hands them to `f`,
/// and goes on behind them; what `f` returns is joined in that order.
pub proof fn law_chunks_are_taken_off_the_front<T, R, F: Fn(&[T]) -> Vec<R>>(
    f: F,
    items: Seq<T>,
    size: nat,
    r: Seq<R>,
)
    requires
        size > 0,
    ensures
        items.len() == 0 ==> (chunk_results(f, items, size, r) <==> r.len() == 0),
        0 < items.len() <= size ==> (chunk_results(f, items, size, r) <==> exists|part: Vec<R>|
            #[trigger] chunk_yields(f, items, part) && r == part@),
        items.len() > size ==> (chunk_results(f, items, size, r) <==> exists|
            part: Vec<R>,
            rest: Seq<R>,
        |
            #![trigger chunk_yields(f, items.take(size as int), part), chunk_results(f, items.skip(size as int), size, rest)]
            chunk_yields(f, items.take(size as int), part) && chunk_results(
                f,
                items.skip(size as int),
                size,
                rest,
            ) && r == part@ + rest),
{
    let n = items.len();
    let k = chunks_in(n, size);
    if n == 0 {
        assert(k == 0) by {
            vstd::arithmetic::div_mod::lemma_basic_div(size - 1, size as int);
        }
        assert(joined(Seq::<Vec<R>>::empty()) =~= Seq::empty());
        if chunk_results(f, items, size, r) {
            let parts = choose|parts: Seq<Vec<R>>| #[trigger]
                chunk_parts(f, items, size, parts) && r == joined(parts);
            assert(parts =~= Seq::empty());
        }
        if r.len() == 0 {
            assert(chunk_parts(f, items, size, Seq::empty()));
            assert(r =~= joined(Seq::<Vec<R>>::empty()));
        }
    } else if n <= size {
        assert(k == 1) by (nonlinear_arith)
            requires
                k == (n + size - 1) as nat / size,
                0 < n <= size,
        ;
        assert(1 * size == size) by (nonlinear_arith);
        assert(chunk_of(items, size, 0) =~= items);
        if chunk_results(f, items, size, r) {
            let parts = choose|parts: Seq<Vec<R>>| #[trigger]
                chunk_parts(f, items, size, parts) && r == joined(parts);
            assert(chunk_yields(f, items, parts[0]));
            assert(parts.drop_last() =~= Seq::empty());
            assert(joined(parts.drop_last()) =~= Seq::empty());
            assert(r =~= parts[0]@);
        }
        if exists|part: Vec<R>| #[trigger] chunk_yields(f, items, part) && r == part@ {
            let part = choose|part: Vec<R>| #[trigger] chunk_yields(f, items, part) && r == part@;
            let parts = seq![part];
            assert(parts.drop_last() =~= Seq::empty());
            assert(joined(parts.drop_last()) =~= Seq::empty());
            assert(joined(parts) =~= part@);
            assert(chunk_parts(f, items, size, parts));
        }
    } else {
        let head = items.take(size as int);
        let tail = items.skip(size as int);
        let less = chunks_in(tail.len(), size);
        assert(k == less + 1) by {
            assert((n + size - 1) as int == (tail.len() + size - 1) + size);
            vstd::arithmetic::div_mod::lemma_div_plus_one(
                (tail.len() + size - 1) as int,
                size as int,
            );
        }
        assert(1 * size == size) by (nonlinear_arith);
        assert(chunk_of(items, size, 0) =~= head);
        assert forall|j: int| 0 <= j < less implies #[trigger] chunk_of(tail, size, j) == chunk_of(
            items,
            size,
            j + 1,
        ) by {
            assert((j + 1) * size == j * size + size) by (nonlinear_arith);
            assert((j + 1 + 1) * size == (j + 1) * size + size) by (nonlinear_arith);
            assert(j * size >= 0) by (nonlinear_arith)
                requires
                    j >= 0,
            ;
            assert(j * size <= tail.len()) by {
                let m = tail.len();
                assert((m + size - 1) as nat / size * size <= m + size - 1) by (nonlinear_arith)
                    requires
                        size > 0,
                ;
                assert((j + 1) * size <= less * size) by (nonlinear_arith)
                    requires
                        j + 1 <= less,
                ;
            }
            assert(chunk_of(tail, size, j) =~= chunk_of(items, size, j + 1));
        }
        if chunk_results(f, items, size, r) {
            let parts = choose|parts: Seq<Vec<R>>| #[trigger]
                chunk_parts(f, items, size, parts) && r == joined(parts);
            let part = parts[0];
            let more = parts.skip(1);
            assert(chunk_yields(f, head, part));
            assert forall|j: int| 0 <= j < more.len() implies chunk_yields(
                f,
                chunk_of(tail, size, j),
                #[trigger] more[j],
            ) by {
                assert(more[j] == parts[j + 1]);
                assert(chunk_of(tail, size, j) == chunk_of(items, size, j + 1));
            }
            assert(chunk_parts(f, tail, size, more));
            lemma_joined_first(part, more);
            assert(parts =~= seq![part] + more);
            assert(chunk_results(f, tail, size, joined(more)));
        }
        if exists|part: Vec<R>, rest: Seq<R>|
            #![trigger chunk_yields(f, items.take(size as int), part), chunk_results(f, items.skip(size as int), size, rest)]
            chunk_yields(f, items.take(size as int), part) && chunk_results(
                f,
                items.skip(size as int),
                size,
                rest,
            ) && r == part@ + rest {
            let (part, rest) = choose|part: Vec<R>, rest: Seq<R>|
                #![trigger chunk_yields(f, items.take(size as int), part), chunk_results(f, items.skip(size as int), size, rest)]
                chunk_yields(f, items.take(size as int), part) && chunk_results(
                    f,
                    items.skip(size as int),
                    size,
                    rest,
                ) && r == part@ + rest;
            let more = choose|parts: Seq<Vec<R>>| #[trigger]
                chunk_parts(f, tail, size, parts) && rest == joined(parts);
            let parts = seq![part] + more;
            lemma_joined_first(part, more);
            assert forall|j: int| 0 <= j < parts.len() implies chunk_yields(
                f,
                chunk_of(items, size, j),
                #[trigger] parts[j],
            ) by {
                if j > 0 {
                    assert(parts[j] == more[j - 1]);
                    assert(chunk_of(tail, size, j - 1) == chunk_of(items, size, j));
                }
            }
            assert(chunk_parts(f, items, size, parts));
        }
    }
}

proof fn lemma_joined_first<R>(part: Vec<R>, more: Seq<Vec<R>>)
    ensures
        joined(seq![part] + more) == part@ + joined(more),
{
    lemma_joined_add(seq![part], more);
    assert(seq![part].drop_last() =~= Seq::<Vec<R>>::empty());
    assert(joined(seq![part].drop_last()) =~= Seq::empty());
    assert(joined(seq![part]) =~= part@);
}

/// A streaming run of one stage is a run of a pipeline of that stage, stopped or complete,
/// in order or not.
pub proof fn law_a_streaming_run_is_a_pipeline_of_one_stage<
    I: Send + 'static,
    O: Send + 'static,
    F: Fn(I) -> O,
>(stage: F, items: Seq<I>, r: Seq<O>, ordered: bool, complete: bool)
    ensures
        streamed(SyncStage { prev: StreamStart, f: stage }, items, r, ordered, complete) <==> ran(
            stage,
            items,
            r,
            ordered,
        ) && (complete ==> r.len() == items.len()),
{
    let chain = SyncStage { prev: StreamStart, f: stage };
    lemma_staged_is_streamed(stage, items, r, complete);
    law_a_run_in_any_order_returns_the_same_values(chain, items, r, complete);
    if !ordered {
        if streamed(chain, items, r, false, complete) {
            let sorted = choose|sorted: Seq<O>| #[trigger]
                streamed(chain, items, sorted, true, complete) && r.len() == sorted.len()
                    && r.to_multiset() == sorted.to_multiset();
            lemma_staged_is_streamed(stage, items, sorted, complete);
        }
        if ran(stage, items, r, false) && (complete ==> r.len() == items.len()) {
            let outs = choose|outs: Seq<O>| #[trigger]
                staged(stage, items, outs) && r.to_multiset() == outs.to_multiset() && r.len()
                    == outs.len();
            lemma_staged_is_streamed(stage, items, outs, complete);
        }
    }
}

proof fn lemma_staged_is_streamed<I: Send + 'static, O: Send + 'static, F: Fn(I) -> O>(
    stage: F,
    items: Seq<I>,
    r: Seq<O>,
    complete: bool,
)
    ensures
        streamed(SyncStage { prev: StreamStart, f: stage }, items, r, true, complete) <==> staged(
            stage,
            items,
            r,
        ) && (complete ==> r.len() == items.len()),
{
    let chain = SyncStage { prev: StreamStart, f: stage };
    law_a_run_maps_the_run_before_the_stage(chain, items, r, complete);
    if streamed(chain, items, r, true, complete) {
        let mid = choose|mid: Seq<I>| #[trigger]
            streamed(chain.prev, items, mid, true, complete) && r.len() <= mid.len() && (complete
                ==> r.len() == mid.len()) && forall|i: int|
                0 <= i < r.len() ==> chain.f.ensures((mid[i],), #[trigger] r[i]);
        law_a_run_without_stages_returns_the_items(items, mid, complete);
        assert forall|i: int| 0 <= i < r.len() implies stage.ensures(
            (items[i],),
            #[trigger] r[i],
        ) by {
            assert(mid[i] == items.take(mid.len() as int)[i]);
        }
    }
    if staged(stage, items, r) && (complete ==> r.len() == items.len()) {
        law_a_run_without_stages_returns_the_items(items, items, complete);
        assert(items =~= items.take(items.len() as int));
        assert(streamed(chain.prev, items, items, true, complete));
    }
}

/// A streaming run of two stages is a run of a pipeline of both, stopped or complete, in
/// order or not.
pub proof fn law_a_streaming_run_is_a_pipeline_of_two_stages<
    I: Send + 'static,
    M: Send + 'static,
    O: Send + 'static,
    F: Fn(I) -> M,
    G: Fn(M) -> O,
>(first: F, second: G, items: Seq<I>, r: Seq<O>, ordered: bool, complete: bool)
    ensures
        streamed(
            SyncStage { prev: SyncStage { prev: StreamStart, f: first }, f: second },
            items,
            r,
            ordered,
            complete,
        ) <==> ran_twice(first, second, items, r, ordered) && (complete ==> r.len()
            == items.len()),
{
    let before = SyncStage { prev: StreamStart, f: first };
    let chain = SyncStage { prev: before, f: second };
    lemma_staged_twice_is_streamed(first, second, items, r, complete);
    law_a_run_in_any_order_returns_the_same_values(chain, items, r, complete);
    if !ordered {
        if streamed(chain, items, r, false, complete) {
            let sorted = choose|sorted: Seq<O>| #[trigger]
                streamed(chain, items, sorted, true, complete) && r.len() == sorted.len()
                    && r.to_multiset() == sorted.to_multiset();
            lemma_staged_twice_is_streamed(first, second, items, sorted, complete);
            let mids = choose|mids: Seq<M>| #[trigger]
                staged(first, items, mids) && staged(second, mids, sorted);
            assert(ran(second, mids, r, false));
        }
        if ran_twice(first, second, items, r, false) && (complete ==> r.len() == items.len()) {
            let mids = choose|mids: Seq<M>| #[trigger]
                staged(first, items, mids) && ran(second, mids, r, false);
            let outs = choose|outs: Seq<O>| #[trigger]
                staged(second, mids, outs) && r.to_multiset() == outs.to_multiset() && r.len()
                    == outs.len();
            lemma_staged_twice_is_streamed(first, second, items, outs, complete);
        }
    }
}

proof fn lemma_staged_twice_is_streamed<
    I: Send + 'static,
    M: Send + 'static,
    O: Send + 'static,
    F: Fn(I) -> M,
    G: Fn(M) -> O,
>(first: F, second: G, items: Seq<I>, r: Seq<O>, complete: bool)
    ensures
        streamed(
            SyncStage { prev: SyncStage { prev: StreamStart, f: first }, f: second },
            items,
            r,
            true,
            complete,
        ) <==> (exists|mids: Seq<M>| #[trigger]
            staged(first, items, mids) && staged(second, mids, r)) && (complete ==> r.len()
            == items.len()),
{
    let before = SyncStage { prev: StreamStart, f: first };
    let chain = SyncStage { prev: before, f: second };
    law_a_run_maps_the_run_before_the_stage(chain, items, r, complete);
    if streamed(chain, items, r, true, complete) {
        let mids = choose|mid: Seq<M>| #[trigger]
            streamed(chain.prev, items, mid, true, complete) && r.len() <= mid.len() && (complete
                ==> r.len() == mid.len()) && forall|i: int|
                0 <= i < r.len() ==> chain.f.ensures((mid[i],), #[trigger] r[i]);
        lemma_staged_is_streamed(first, items, mids, complete);
        assert(staged(second, mids, r));
    }
    if (exists|mids: Seq<M>| #[trigger] staged(first, items, mids) && staged(second, mids, r)) && (
    complete ==> r.len() == items.len()) {
        let mids = choose|mids: Seq<M>| #[trigger]
            staged(first, items, mids) && staged(second, mids, r);
        lemma_staged_is_streamed(first, items, mids, complete);
        assert(streamed(chain.prev, items, mids, true, complete));
    }
}

/// A nested run is a run of the inner stage over everything that the items are expanded
/// to, item by item in order.
pub proof fn law_a_nested_run_is_a_run_over_the_parts<
    I,
    N,
    O,
    F: Fn(I) -> Vec<N>,
    G: Fn(N) -> O,
>(outer: F, inner: G, items: Seq<I>, r: Seq<O>, ordered: bool, complete: bool)
    ensures
        ran_nested(outer, inner, items, r, ordered, complete) <==> exists|
            parts: Seq<Vec<N>>,
            all: Seq<N>,
        |
            #![trigger parts.len(), ran(inner, all, r, ordered)]
            parts.len() == items.len() && (forall|i: int|
                0 <= i < items.len() ==> outer.ensures((items[i],), #[trigger] parts[i])) && all
                == Seq::new(parts.len(), |i: int| parts[i]@).flatten() && ran(
                inner,
                all,
                r,
                ordered,
            ) && (complete ==> r.len() == all.len()),
{
    if ran_nested(outer, inner, items, r, ordered, complete) {
        let parts = choose|parts: Seq<Vec<N>>| #[trigger]
            expanded_by(outer, items, parts) && ran(inner, joined(parts), r, ordered) && (complete
                ==> r.len() == joined(parts).len());
        law_joining_is_flattening(parts);
        let all = joined(parts);
        assert(parts.len() == items.len() && ran(inner, all, r, ordered));
    }
    if exists|parts: Seq<Vec<N>>, all: Seq<N>|
        #![trigger parts.len(), ran(inner, all, r, ordered)]
        parts.len() == items.len() && (forall|i: int|
            0 <= i < items.len() ==> outer.ensures((items[i],), #[trigger] parts[i])) && all
            == Seq::new(parts.len(), |i: int| parts[i]@).flatten() && ran(inner, all, r, ordered)
            && (complete ==> r.len() == all.len()) {
        let (parts, all) = choose|parts: Seq<Vec<N>>, all: Seq<N>|
            #![trigger parts.len(), ran(inner, all, r, ordered)]
            parts.len() == items.len() && (forall|i: int|
                0 <= i < items.len() ==> outer.ensures((items[i],), #[trigger] parts[i])) && all
                == Seq::new(parts.len(), |i: int| parts[i]@).flatten() && ran(
                inner,
                all,
                r,
                ordered,
            ) && (complete ==> r.len() == all.len());
        law_joining_is_flattening(parts);
        assert(expanded_by(outer, items, parts));
    }
}

/// What `f` gives for a chunk is what it gives for a slice of just those items.
pub proof fn law_a_part_is_made_of_its_chunk<T, R, F: Fn(&[T]) -> Vec<R>>(
    f: F,
    chunk: Seq<T>,
    part: Vec<R>,
)
    ensures
        chunk_yields(f, chunk, part) <==> exists|s: &[T]|
            s@ == chunk && #[trigger] f.ensures((s,), part),
{
}

} // verus!
