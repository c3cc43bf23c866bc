//! What the stages of a streaming pipeline make of a run.
use crate::builder::stream_pipe::{
    AsyncStage, ExpandStage, FenceLink, StageShape, StageSpawn, StreamStart, SyncStage,
    expanded_entries, mapped_entries, some_of, stage_share, streamed, tagged_parts, tags_of,
    values_of,
};
use crate::state::stream::tagged;
use vstd::prelude::*;

verus! {

/// Before any stage the items are as they went in.
pub proof fn law_a_start_passes_everything_on<I: Send + 'static>(
    input: Seq<(u64, I)>,
    output: Seq<(u64, I)>,
    complete: bool,
)
    ensures
        StreamStart.flows(input, output, complete) <==> output == input,
        StreamStart.ready(input),
{
}

/// A fence passes on what reaches it, whatever the stages before it do: all of it in a
/// complete run, in a stopped one the first part.
pub proof fn law_a_fence_passes_on_what_reaches_it<I: Send + 'static, P: StageSpawn<I>>(
    chain: FenceLink<P>,
    input: Seq<(u64, I)>,
    output: Seq<(u64, P::Out)>,
)
    ensures
        chain.flows(input, output, true) <==> chain.prev.flows(input, output, true),
        chain.flows(input, output, false) <==> exists|mid: Seq<(u64, P::Out)>| #[trigger]
            chain.prev.flows(input, mid, false) && output.len() <= mid.len() && output == mid.take(
                output.len() as int,
            ),
        chain.ready(input) <==> chain.prev.ready(input),
{
    if chain.prev.flows(input, output, true) {
        assert(output =~= output.take(output.len() as int));
        assert(output.is_prefix_of(output));
    }
    if chain.flows(input, output, false) {
        let mid = choose|mid: Seq<(u64, P::Out)>| #[trigger]
            chain.prev.flows(input, mid, false) && output.is_prefix_of(mid);
        assert(output =~= mid.take(output.len() as int));
    }
}

/// A stage makes one entry of each that reaches it, under the same tag and in the same
/// place: of all in a complete run, in a stopped one of the first ones.
pub proof fn law_a_stage_maps_what_reaches_it<
    I: Send + 'static,
    M: Send + 'static,
    P: StageSpawn<I>,
    F: Fn(P::Out) -> M,
>(chain: SyncStage<P, F>, input: Seq<(u64, I)>, output: Seq<(u64, M)>, complete: bool)
    ensures
        chain.flows(input, output, complete) <==> exists|mid: Seq<(u64, P::Out)>| #[trigger]
            chain.prev.flows(input, mid, complete) && output.len() <= mid.len() && (complete
                ==> output.len() == mid.len()) && forall|i: int|
                0 <= i < output.len() ==> (#[trigger] output[i]).0 == mid[i].0 && chain.f.ensures(
                    (mid[i].1,),
                    output[i].1,
                ),
{
    if chain.flows(input, output, complete) {
        let mid = choose|mid: Seq<(u64, P::Out)>| #[trigger]
            chain.prev.flows(input, mid, complete) && mapped_entries(
                chain.f,
                mid,
                output,
                complete,
            );
        assert(chain.prev.flows(input, mid, complete));
    }
}

/// An expanding stage makes a part of each entry that reaches it, and joins the parts in
/// order, every value under the tag of what it was made of: of all entries in a complete
/// run, in a stopped one of the first ones.
pub proof fn law_an_expanding_stage_joins_its_parts<
    I: Send + 'static,
    N: Send + 'static,
    P: StageSpawn<I>,
    F: Fn(P::Out) -> Vec<N>,
>(chain: ExpandStage<P, F>, input: Seq<(u64, I)>, output: Seq<(u64, N)>, complete: bool)
    ensures
        chain.flows(input, output, complete) <==> exists|
            mid: Seq<(u64, P::Out)>,
            parts: Seq<Vec<N>>,
        |
            #![trigger chain.prev.flows(input, mid, complete), labelled(mid, parts)]
            chain.prev.flows(input, mid, complete) && parts.len() <= mid.len() && (complete
                ==> parts.len() == mid.len()) && (forall|i: int|
                0 <= i < parts.len() ==> chain.f.ensures((mid[i].1,), #[trigger] parts[i]))
                && output == labelled(mid, parts).flatten(),
{
    if chain.flows(input, output, complete) {
        let (mid, parts) = choose|mid: Seq<(u64, P::Out)>, parts: Seq<Vec<N>>|
            #![trigger chain.prev.flows(input, mid, complete), expanded_entries(chain.f, mid, parts, complete)]
            chain.prev.flows(input, mid, complete) && expanded_entries(
                chain.f,
                mid,
                parts,
                complete,
            ) && output == tagged_parts(tags_of(mid), parts);
        lemma_parts_join(mid, parts);
        assert(labelled(mid, parts).len() == parts.len());
    }
    if exists|mid: Seq<(u64, P::Out)>, parts: Seq<Vec<N>>|
        #![trigger chain.prev.flows(input, mid, complete), labelled(mid, parts)]
        chain.prev.flows(input, mid, complete) && parts.len() <= mid.len() && (complete
            ==> parts.len() == mid.len()) && (forall|i: int|
            0 <= i < parts.len() ==> chain.f.ensures((mid[i].1,), #[trigger] parts[i])) && output
            == labelled(mid, parts).flatten() {
        let (mid, parts) = choose|mid: Seq<(u64, P::Out)>, parts: Seq<Vec<N>>|
            #![trigger chain.prev.flows(input, mid, complete), labelled(mid, parts)]
            chain.prev.flows(input, mid, complete) && parts.len() <= mid.len() && (complete
                ==> parts.len() == mid.len()) && (forall|i: int|
                0 <= i < parts.len() ==> chain.f.ensures((mid[i].1,), #[trigger] parts[i]))
                && output == labelled(mid, parts).flatten();
        lemma_parts_join(mid, parts);
        assert(expanded_entries(chain.f, mid, parts, complete));
    }
}

/// The parts, each value with the tag of the entry in its part's place.
pub open spec fn labelled<M, N>(mid: Seq<(u64, M)>, parts: Seq<Vec<N>>) -> Seq<Seq<(u64, N)>> {
    Seq::new(
        parts.len(),
        |i: int| Seq::new(parts[i]@.len(), |j: int| (mid[i].0, parts[i]@[j])),
    )
}

proof fn lemma_parts_join<M, N>(mid: Seq<(u64, M)>, parts: Seq<Vec<N>>)
    requires
        parts.len() <= mid.len(),
    ensures
        tagged_parts(tags_of(mid), parts) == labelled(mid, parts).flatten(),
    decreases parts.len(),
{
    let all = labelled(mid, parts);
    if parts.len() > 0 {
        let init = parts.drop_last();
        lemma_parts_join(mid, init);
        let last = parts.len() - 1;
        assert(all.drop_last() =~= labelled(mid, init)) by {
            assert forall|i: int| 0 <= i < init.len() implies all.drop_last()[i] == labelled(
                mid,
                init,
            )[i] by {
                assert(init[i] == parts[i]);
                assert(all.drop_last()[i] =~= labelled(mid, init)[i]);
            }
        }
        assert(all =~= all.drop_last().push(all[last]));
        all.drop_last().lemma_flatten_push(all[last]);
        assert(all[last] =~= Seq::new(
            parts[last]@.len(),
            |j: int| (tags_of(mid)[last], parts[last]@[j]),
        ));
    } else {
        assert(all =~= Seq::empty());
        assert(tagged_parts(tags_of(mid), parts) =~= all.flatten());
    }
}

/// A pipeline without stages returns its items, in order; a stopped run the first ones.
pub proof fn law_a_run_without_stages_returns_the_items<I: Send + 'static>(
    items: Seq<I>,
    r: Seq<I>,
    complete: bool,
)
    ensures
        streamed(StreamStart, items, r, true, complete) <==> {
            &&& r.len() <= items.len()
            &&& r == items.take(r.len() as int)
            &&& complete ==> r == items
        },
{
    if streamed(StreamStart, items, r, true, complete) {
        let (fed, output) = lemma_streamed_by(StreamStart, items, r, complete);
        assert(r =~= items.take(fed as int));
        if complete {
            assert(items.take(fed as int) =~= items);
        }
    }
    if r.len() <= items.len() && r == items.take(r.len() as int) && (complete ==> r == items) {
        let output = tagged(items.take(r.len() as int));
        assert(r =~= values_of(output));
        assert(StreamStart.flows(tagged(items.take(r.len() as int)), output, complete));
    }
}

/// What an ordered run was fed, and what came out of its stages.
proof fn lemma_streamed_by<I: Send + 'static, S: StageSpawn<I>>(
    stages: S,
    items: Seq<I>,
    r: Seq<S::Out>,
    complete: bool,
) -> (w: (nat, Seq<(u64, S::Out)>))
    requires
        streamed(stages, items, r, true, complete),
    ensures
        w.0 <= items.len(),
        complete ==> w.0 == items.len(),
        stages.flows(tagged(items.take(w.0 as int)), w.1, complete),
        r == values_of(w.1),
{
    choose|fed: nat, output: Seq<(u64, S::Out)>|
        #![trigger stages.flows(tagged(items.take(fed as int)), output, complete)]
        fed <= items.len() && (complete ==> fed == items.len()) && stages.flows(
            tagged(items.take(fed as int)),
            output,
            complete,
        ) && r == values_of(output)
}

/// A stage of a pipeline maps what the pipeline without it returns: all of it in a
/// complete run, in a stopped one the first part.
pub proof fn law_a_run_maps_the_run_before_the_stage<
    I: Send + 'static,
    M: Send + 'static,
    P: StageSpawn<I>,
    F: Fn(P::Out) -> M,
>(chain: SyncStage<P, F>, items: Seq<I>, r: Seq<M>, complete: bool)
    ensures
        streamed(chain, items, r, true, complete) <==> exists|mid: Seq<P::Out>| #[trigger]
            streamed(chain.prev, items, mid, true, complete) && r.len() <= mid.len() && (complete
                ==> r.len() == mid.len()) && forall|i: int|
                0 <= i < r.len() ==> chain.f.ensures((mid[i],), #[trigger] r[i]),
{
    if streamed(chain, items, r, true, complete) {
        let (fed, output) = lemma_streamed_by(chain, items, r, complete);
        let given = tagged(items.take(fed as int));
        law_a_stage_maps_what_reaches_it(chain, given, output, complete);
        let mids = choose|mid: Seq<(u64, P::Out)>| #[trigger]
            chain.prev.flows(given, mid, complete) && output.len() <= mid.len() && (complete
                ==> output.len() == mid.len()) && forall|i: int|
                0 <= i < output.len() ==> (#[trigger] output[i]).0 == mid[i].0 && chain.f.ensures(
                    (mid[i].1,),
                    output[i].1,
                );
        let mid = values_of(mids);
        assert(streamed(chain.prev, items, mid, true, complete));
        assert forall|i: int| 0 <= i < r.len() implies chain.f.ensures(
            (mid[i],),
            #[trigger] r[i],
        ) by {
            assert(r[i] == output[i].1);
        }
    }
    if exists|mid: Seq<P::Out>| #[trigger]
        streamed(chain.prev, items, mid, true, complete) && r.len() <= mid.len() && (complete
            ==> r.len() == mid.len()) && forall|i: int|
            0 <= i < r.len() ==> chain.f.ensures((mid[i],), #[trigger] r[i]) {
        let mid = choose|mid: Seq<P::Out>| #[trigger]
            streamed(chain.prev, items, mid, true, complete) && r.len() <= mid.len() && (complete
                ==> r.len() == mid.len()) && forall|i: int|
                0 <= i < r.len() ==> chain.f.ensures((mid[i],), #[trigger] r[i]);
        let (fed, mids) = lemma_streamed_by(chain.prev, items, mid, complete);
        let given = tagged(items.take(fed as int));
        let output = Seq::new(r.len(), |i: int| (mids[i].0, r[i]));
        assert forall|i: int| 0 <= i < output.len() implies (#[trigger] output[i]).0 == mids[i].0
            && chain.f.ensures((mids[i].1,), output[i].1) by {
            assert(mid[i] == mids[i].1);
            assert(output[i].1 == r[i]);
        }
        law_a_stage_maps_what_reaches_it(chain, given, output, complete);
        assert(chain.flows(given, output, complete));
        assert(r =~= values_of(output));
    }
}

/// An expanding stage joins the parts that it makes of what the pipeline without it
/// returns, in order.
pub proof fn law_a_run_joins_the_parts_of_the_run_before<
    I: Send + 'static,
    N: Send + 'static,
    P: StageSpawn<I>,
    F: Fn(P::Out) -> Vec<N>,
>(chain: ExpandStage<P, F>, items: Seq<I>, r: Seq<N>, complete: bool)
    ensures
        streamed(chain, items, r, true, complete) <==> exists|
            mid: Seq<P::Out>,
            parts: Seq<Vec<N>>,
        |
            #![trigger streamed(chain.prev, items, mid, true, complete), parts.len()]
            streamed(chain.prev, items, mid, true, complete) && parts.len() <= mid.len()
                && (complete ==> parts.len() == mid.len()) && (forall|i: int|
                0 <= i < parts.len() ==> chain.f.ensures((mid[i],), #[trigger] parts[i])) && r
                == Seq::new(parts.len(), |i: int| parts[i]@).flatten(),
{
    if streamed(chain, items, r, true, complete) {
        let (fed, output) = lemma_streamed_by(chain, items, r, complete);
        let given = tagged(items.take(fed as int));
        law_an_expanding_stage_joins_its_parts(chain, given, output, complete);
        let (mids, parts) = choose|mid: Seq<(u64, P::Out)>, parts: Seq<Vec<N>>|
            #![trigger chain.prev.flows(given, mid, complete), labelled(mid, parts)]
            chain.prev.flows(given, mid, complete) && parts.len() <= mid.len() && (complete
                ==> parts.len() == mid.len()) && (forall|i: int|
                0 <= i < parts.len() ==> chain.f.ensures((mid[i].1,), #[trigger] parts[i]))
                && output == labelled(mid, parts).flatten();
        let mid = values_of(mids);
        assert(streamed(chain.prev, items, mid, true, complete));
        lemma_values_join(mids, parts);
        assert forall|i: int| 0 <= i < parts.len() implies chain.f.ensures(
            (mid[i],),
            #[trigger] parts[i],
        ) by {
            assert(mid[i] == mids[i].1);
        }
    }
    if exists|mid: Seq<P::Out>, parts: Seq<Vec<N>>|
        #![trigger streamed(chain.prev, items, mid, true, complete), parts.len()]
        streamed(chain.prev, items, mid, true, complete) && parts.len() <= mid.len() && (complete
            ==> parts.len() == mid.len()) && (forall|i: int|
            0 <= i < parts.len() ==> chain.f.ensures((mid[i],), #[trigger] parts[i])) && r
            == Seq::new(parts.len(), |i: int| parts[i]@).flatten() {
        let (mid, parts) = choose|mid: Seq<P::Out>, parts: Seq<Vec<N>>|
            #![trigger streamed(chain.prev, items, mid, true, complete), parts.len()]
            streamed(chain.prev, items, mid, true, complete) && parts.len() <= mid.len()
                && (complete ==> parts.len() == mid.len()) && (forall|i: int|
                0 <= i < parts.len() ==> chain.f.ensures((mid[i],), #[trigger] parts[i])) && r
                == Seq::new(parts.len(), |i: int| parts[i]@).flatten();
        let (fed, mids) = lemma_streamed_by(chain.prev, items, mid, complete);
        let given = tagged(items.take(fed as int));
        let output = labelled(mids, parts).flatten();
        assert forall|i: int| 0 <= i < parts.len() implies chain.f.ensures(
            (mids[i].1,),
            #[trigger] parts[i],
        ) by {
            assert(mid[i] == mids[i].1);
        }
        law_an_expanding_stage_joins_its_parts(chain, given, output, complete);
        lemma_values_join(mids, parts);
        assert(chain.flows(given, output, complete));
    }
}

/// Without the tags the joined parts are the values of the parts, joined.
proof fn lemma_values_join<M, N>(mid: Seq<(u64, M)>, parts: Seq<Vec<N>>)
    ensures
        values_of(labelled(mid, parts).flatten()) == Seq::new(
            parts.len(),
            |i: int| parts[i]@,
        ).flatten(),
    decreases parts.len(),
{
    let all = labelled(mid, parts);
    let plain = Seq::new(parts.len(), |i: int| parts[i]@);
    if parts.len() > 0 {
        let init = parts.drop_last();
        let last = parts.len() - 1;
        lemma_values_join(mid, init);
        assert(all.drop_last() =~= labelled(mid, init)) by {
            assert forall|i: int| 0 <= i < init.len() implies all.drop_last()[i] == labelled(
                mid,
                init,
            )[i] by {
                assert(init[i] == parts[i]);
                assert(all.drop_last()[i] =~= labelled(mid, init)[i]);
            }
        }
        assert(plain.drop_last() =~= Seq::new(init.len(), |i: int| init[i]@));
        assert(all =~= all.drop_last().push(all[last]));
        assert(plain =~= plain.drop_last().push(plain[last]));
        all.drop_last().lemma_flatten_push(all[last]);
        plain.drop_last().lemma_flatten_push(plain[last]);
        assert(values_of(all.flatten()) =~= values_of(all.drop_last().flatten()) + parts[last]@);
    } else {
        assert(all =~= Seq::empty());
        assert(plain =~= Seq::empty());
        assert(values_of(all.flatten()) =~= plain.flatten());
    }
}

/// A fence changes nothing of what a complete run returns, in order or not. A stopped run
/// returns the first part of what it returns without the fence.
pub proof fn law_a_run_with_a_fence_is_the_run_without<I: Send + 'static, P: StageSpawn<I>>(
    chain: FenceLink<P>,
    items: Seq<I>,
    r: Seq<P::Out>,
    ordered: bool,
)
    ensures
        streamed(chain, items, r, ordered, true) <==> streamed(
            chain.prev,
            items,
            r,
            ordered,
            true,
        ),
        streamed(chain, items, r, true, false) <==> exists|mid: Seq<P::Out>| #[trigger]
            streamed(chain.prev, items, mid, true, false) && r.len() <= mid.len() && r == mid.take(
                r.len() as int,
            ),
{
    assert forall|fed: nat, output: Seq<(u64, P::Out)>|
        #![trigger chain.flows(tagged(items.take(fed as int)), output, true)]
        #![trigger chain.prev.flows(tagged(items.take(fed as int)), output, true)]
        chain.flows(tagged(items.take(fed as int)), output, true) == chain.prev.flows(
            tagged(items.take(fed as int)),
            output,
            true,
        ) by {
        law_a_fence_passes_on_what_reaches_it(chain, tagged(items.take(fed as int)), output);
    }
    if streamed(chain, items, r, true, false) {
        let (fed, output) = lemma_streamed_by(chain, items, r, false);
        let given = tagged(items.take(fed as int));
        law_a_fence_passes_on_what_reaches_it(chain, given, output);
        let mids = choose|mid: Seq<(u64, P::Out)>| #[trigger]
            chain.prev.flows(given, mid, false) && output.len() <= mid.len() && output == mid.take(
                output.len() as int,
            );
        assert(streamed(chain.prev, items, values_of(mids), true, false));
        assert(r =~= values_of(mids).take(r.len() as int));
    }
    if exists|mid: Seq<P::Out>| #[trigger]
        streamed(chain.prev, items, mid, true, false) && r.len() <= mid.len() && r == mid.take(
            r.len() as int,
        ) {
        let mid = choose|mid: Seq<P::Out>| #[trigger]
            streamed(chain.prev, items, mid, true, false) && r.len() <= mid.len() && r == mid.take(
                r.len() as int,
            );
        let (fed, mids) = lemma_streamed_by(chain.prev, items, mid, false);
        let given = tagged(items.take(fed as int));
        let output = mids.take(r.len() as int);
        law_a_fence_passes_on_what_reaches_it(chain, given, output);
        assert(chain.flows(given, output, false));
        assert(r =~= values_of(output));
    }
}

/// A run that need not keep the order returns the values that one in order returns, each
/// as often.
pub proof fn law_a_run_in_any_order_returns_the_same_values<I: Send + 'static, S: StageSpawn<I>>(
    stages: S,
    items: Seq<I>,
    r: Seq<S::Out>,
    complete: bool,
)
    ensures
        streamed(stages, items, r, false, complete) <==> exists|sorted: Seq<S::Out>| #[trigger]
            streamed(stages, items, sorted, true, complete) && r.len() == sorted.len()
                && r.to_multiset() == sorted.to_multiset(),
{
    if streamed(stages, items, r, false, complete) {
        let (fed, output) = choose|fed: nat, output: Seq<(u64, S::Out)>|
            #![trigger stages.flows(tagged(items.take(fed as int)), output, complete)]
            fed <= items.len() && (complete ==> fed == items.len()) && stages.flows(
                tagged(items.take(fed as int)),
                output,
                complete,
            ) && r.to_multiset() == values_of(output).to_multiset() && r.len() == output.len();
        assert(streamed(stages, items, values_of(output), true, complete));
    }
    if exists|sorted: Seq<S::Out>| #[trigger]
        streamed(stages, items, sorted, true, complete) && r.len() == sorted.len()
            && r.to_multiset() == sorted.to_multiset() {
        let sorted = choose|sorted: Seq<S::Out>| #[trigger]
            streamed(stages, items, sorted, true, complete) && r.len() == sorted.len()
                && r.to_multiset() == sorted.to_multiset();
        let (fed, output) = lemma_streamed_by(stages, items, sorted, complete);
        assert(stages.flows(tagged(items.take(fed as int)), output, complete));
    }
}

/// The stages that take up compute workers are those that compute: every one of them
/// counts once, and neither a fence nor an async stage does. Only an expanding stage makes
/// a chain one that expands.
pub proof fn law_every_computing_stage_counts_once<P: StageShape, F>(
    prev: P,
    f: F,
    mode: crate::state::fence::FenceMode,
)
    ensures
        StreamStart.worker_stage_count() == 0,
        (SyncStage { prev, f }).worker_stage_count() == prev.worker_stage_count() + 1,
        (ExpandStage { prev, f }).worker_stage_count() == prev.worker_stage_count() + 1,
        (AsyncStage { prev, f }).worker_stage_count() == prev.worker_stage_count(),
        (FenceLink { prev, mode }).worker_stage_count() == prev.worker_stage_count(),
        !StreamStart.expands(),
        (SyncStage { prev, f }).expands() == prev.expands(),
        (ExpandStage { prev, f }).expands(),
        (AsyncStage { prev, f }).expands() == prev.expands(),
        (FenceLink { prev, mode }).expands() == prev.expands(),
{
}

/// The stage that reads the input is the first one of the chain that is no fence.
pub proof fn law_the_first_stage_reads_the_input<P: StageShape, F>(
    prev: P,
    f: F,
    mode: crate::state::fence::FenceMode,
)
    ensures
        StreamStart.async_first() is None,
        (FenceLink { prev, mode }).async_first() == prev.async_first(),
        prev.async_first() is None ==> (SyncStage { prev, f }).async_first() == Some(false)
            && (ExpandStage { prev, f }).async_first() == Some(false) && (AsyncStage {
            prev,
            f,
        }).async_first() == Some(true),
        prev.async_first() is Some ==> (SyncStage { prev, f }).async_first() == prev.async_first()
            && (ExpandStage { prev, f }).async_first() == prev.async_first() && (AsyncStage {
            prev,
            f,
        }).async_first() == prev.async_first(),
{
}

/// Every stage has as many workers as can be had if all have as many, and at least one.
pub proof fn law_no_worker_is_left_idle(compute_workers: nat, worker_stages: nat)
    requires
        worker_stages > 0,
    ensures
        stage_share(compute_workers, worker_stages) >= 1,
        (stage_share(compute_workers, worker_stages) + 1) * worker_stages > compute_workers,
        stage_share(compute_workers, 0) == stage_share(compute_workers, 1),
{
    let q = compute_workers / worker_stages;
    vstd::arithmetic::div_mod::lemma_fundamental_div_mod(
        compute_workers as int,
        worker_stages as int,
    );
    assert((q + 1) * worker_stages == worker_stages * q + worker_stages) by (nonlinear_arith);
    assert(compute_workers % worker_stages < worker_stages);
    let share = stage_share(compute_workers, worker_stages);
    assert((share + 1) * worker_stages >= (q + 1) * worker_stages) by (nonlinear_arith)
        requires
            share >= q,
    ;
}

/// As many workers are taken as are wanted and have something to do, and never none.
pub proof fn law_workers_have_items(wanted: nat, n: nat)
    ensures
        some_of(wanted, n) >= 1,
        n >= 1 ==> some_of(wanted, n) <= n,
        wanted >= 1 ==> some_of(wanted, n) <= wanted,
        some_of(wanted, n) > 1 ==> some_of(wanted, n) == wanted || some_of(wanted, n) == n,
        some_of(wanted, n) == 1 ==> wanted <= 1 || n <= 1,
{
}

/// Nothing more is asked of the items of a streaming chain than that its stages may be
/// called on what reaches them, whether the run is stopped or not.
pub proof fn law_streaming_stages_are_called_on_what_reaches_them<
    I: Send + 'static,
    M: Send + 'static,
    N: Send + 'static,
    P: StageSpawn<I>,
    F: Fn(P::Out) -> M,
    G: Fn(P::Out) -> Vec<N>,
>(stage: SyncStage<P, F>, expand: ExpandStage<P, G>, input: Seq<(u64, I)>)
    ensures
        stage.ready(input) <==> stage.prev.ready(input) && forall|
            mid: Seq<(u64, P::Out)>,
            complete: bool,
            i: int,
        |
            #![trigger stage.prev.flows(input, mid, complete), mid[i]]
            stage.prev.flows(input, mid, complete) && 0 <= i < mid.len() ==> stage.f.requires(
                (mid[i].1,),
            ),
        expand.ready(input) <==> expand.prev.ready(input) && forall|
            mid: Seq<(u64, P::Out)>,
            complete: bool,
            i: int,
        |
            #![trigger expand.prev.flows(input, mid, complete), mid[i]]
            expand.prev.flows(input, mid, complete) && 0 <= i < mid.len() ==> expand.f.requires(
                (mid[i].1,),
            ),
{
}

} // verus!
