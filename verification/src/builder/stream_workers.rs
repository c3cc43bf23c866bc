//! What the threads of a streaming run do: feed, work, hold back and collect, over
//! channels.
//!
//! What comes out of a channel, and whether it still takes anything, is up to the
//! other threads. Each function is stated over what it took and sent, and
//! over what made it stop.
use crate::builder::flow::{law_a_stage_maps_what_reaches_it, law_a_start_passes_everything_on};
use crate::builder::stream_pipe::{
    ExpandStage, StageSpawn, StreamStart, SyncStage, expanded_entries, tagged_parts, tags_of,
};
use crate::handoff::channel::{OwnedChannel, TryRecvError, capacity_fits};
use crate::handoff::conduit::{Inlet, Outlet};
use crate::state::fence::{
    FenceBarrier, FenceMode, fenced, law_barrier_holds_everything, lemma_fenced_push,
};
use crate::state::stream::tagged;
use crate::sync::cancel::{
    kept_stopped, law_a_run_sees_what_its_readings_find, lemma_watched_joins, saw_clear, saw_set,
    stopped, watched,
};
use crate::sync::flag::{FlagUse, UseLog, new_record};
use crate::sync::CancellationToken;
use crate::sync::watch::Stops;
use vstd::prelude::*;

verus! {

/// The token, where there is one, was read once, and `b` tells whether it was set.
pub open spec fn looked(
    cancel: Option<CancellationToken>,
    before: Seq<FlagUse>,
    after: Seq<FlagUse>,
    b: bool,
) -> bool {
    &&& watched(cancel, before, after)
    &&& cancel is None ==> !b && after == before
    &&& cancel is Some ==> after.len() == before.len() + 1 && saw_set(before, after) == b
        && saw_clear(before, after) == !b
}

/// Whether the run is to stop; records that this was asked.
pub fn cancel_active_on_record<C: Stops>(cancel: &C, uses: &mut UseLog) -> (b: bool)
    ensures
        looked(cancel.token(), old(uses)@, final(uses)@, b),
    opens_invariants none
{
    cancel.look(uses)
}

/// Whether the run is to stop.
pub fn cancel_active<C: Stops>(cancel: &C) -> (b: bool)
    ensures
        match cancel.token() {
            Some(token) => token.found(b),
            None => !b,
        },
        stopped(cancel.token()) ==> b,
    opens_invariants [ new_record() ]
{
    cancel.glance()
}

/// What was added to a record that held `before`.
pub open spec fn since<T>(before: Seq<T>, after: Seq<T>) -> Seq<T> {
    after.skip(before.len() as int)
}

proof fn lemma_since<T>(before: Seq<T>, added: Seq<T>)
    ensures
        since(before, before + added) == added,
        before.is_prefix_of(before + added),
{
    assert(since(before, before + added) =~= added);
}

/// The token, where there is one, was read before each of `n` items that was passed on,
/// and before the next one where not all were.
pub open spec fn asked_for_each(
    cancel: Option<CancellationToken>,
    before: Seq<FlagUse>,
    after: Seq<FlagUse>,
    passed: nat,
    n: nat,
) -> bool {
    cancel is Some ==> after.len() == before.len() + passed + (if passed < n {
        1nat
    } else {
        0
    })
}

/// Sends the items with their positions, until all are sent, nobody can receive
/// them or the run is stopped.
pub fn feed_channel<I: Send + 'static, C: Stops>(
    items: Vec<I>,
    tx: &mut Outlet<(u64, I)>,
    cancel: &C,
    uses: &mut UseLog,
)
    requires
        !old(tx).refused(),
    ensures
        old(tx).sent().is_prefix_of(final(tx).sent()),
        fed_part(items@, since(old(tx).sent(), final(tx).sent())),
        !final(tx).refused() && !saw_set(old(uses)@, final(uses)@)
            ==> since(old(tx).sent(), final(tx).sent())
            == tagged(items@),
        kept_stopped(cancel.token(), old(uses)@, final(uses)@) ==> final(tx).sent() == old(tx).sent(),
        asked_for_each(
            cancel.token(),
            old(uses)@,
            final(uses)@,
            since(old(tx).sent(), final(tx).sent()).len(),
            items@.len(),
        ),
        watched(cancel.token(), old(uses)@, final(uses)@),
{
    let ghost seen = uses@;
    let ghost all = items@;
    let total: usize = items.len();
    let ghost start = tx.sent();
    let ghost mut outs: Seq<(u64, I)> = Seq::empty();
    let mut seq: u64 = 0;
    proof {
        assert(outs =~= tagged(all.take(0)));
        assert(start + outs =~= start);
        lemma_since(start, outs);
    }
    for item in it: items
        invariant
            it.seq() == all,
            all.len() == total,
            all == items@,
            start == old(tx).sent(),
            seq == it.index(),
            outs.len() == it.index(),
            outs == tagged(all.take(it.index() as int)),
            tx.sent() == start + outs,
            !tx.refused(),
            seen == old(uses)@,
            watched(cancel.token(), seen, uses@),
            !saw_set(seen, uses@),
            kept_stopped(cancel.token(), seen, uses@) ==> outs.len() == 0,
            cancel.token() is Some ==> uses@.len() == seen.len() + outs.len(),
    {
        proof {
            lemma_since(start, outs);
            if outs.len() == 0 {
                assert(tx.sent() =~= start);
            }
        }
        let ghost asked = uses@;
        let stop: bool = cancel_active_on_record(cancel, uses);
        proof {
            lemma_watched_joins(cancel.token(), seen, asked, uses@);
        }
        if stop {
            return ;
        }
        let ghost i = it.index() as int;
        match tx.send((seq, item)) {
            Ok(_) => {
                proof {
                    assert(start + outs.push((seq, item)) =~= (start + outs).push((seq, item)));
                    outs = outs.push((seq, item));
                    assert(outs =~= tagged(all.take(i + 1)));
                }
                seq = seq + 1;
            },
            Err(_) => {
                return ;
            },
        }
    }
    proof {
        lemma_since(start, outs);
        assert(all.take(all.len() as int) =~= all);
        if outs.len() == 0 {
            assert(tx.sent() =~= start);
        }
    }
}

/// Puts the items with their positions into a fresh channel that has room for all of
/// them, until the run is stopped. As there is room, nothing has to be waited for.
pub fn feed_inline<I: Send + 'static, C: Stops>(
    items: Vec<I>,
    buffer: usize,
    cancel: &C,
    uses: &mut UseLog,
) -> (chan: OwnedChannel<(u64, I)>)
    requires
        items@.len() <= buffer,
        capacity_fits(buffer as nat),
    ensures
        fed_part(items@, chan@),
        !saw_set(old(uses)@, final(uses)@) ==> chan@ == tagged(items@),
        kept_stopped(cancel.token(), old(uses)@, final(uses)@) ==> chan@.len() == 0,
        asked_for_each(cancel.token(), old(uses)@, final(uses)@, chan@.len(), items@.len()),
        chan.limit() == (if buffer == 0 {
            1nat
        } else {
            buffer as nat
        }),
        watched(cancel.token(), old(uses)@, final(uses)@),
{
    let ghost seen = uses@;
    let ghost all = items@;
    let mut chan: OwnedChannel<(u64, I)> = OwnedChannel::new(buffer);
    let mut seq: u64 = 0;
    assert(chan@ =~= tagged(all.take(0)));
    for item in it: items
        invariant
            it.seq() == all,
            all == items@,
            all.len() <= buffer,
            seq == it.index(),
            chan.limit() == (if buffer == 0 {
                1nat
            } else {
                buffer as nat
            }),
            chan@.len() == it.index(),
            chan@ == tagged(all.take(it.index() as int)),
            seen == old(uses)@,
            watched(cancel.token(), seen, uses@),
            !saw_set(seen, uses@),
            kept_stopped(cancel.token(), seen, uses@) ==> chan@.len() == 0,
            cancel.token() is Some ==> uses@.len() == seen.len() + chan@.len(),
    {
        let ghost asked = uses@;
        let stop: bool = cancel_active_on_record(cancel, uses);
        proof {
            lemma_watched_joins(cancel.token(), seen, asked, uses@);
        }
        if stop {
            return chan;
        }
        let ghost i = it.index() as int;
        let _sent = chan.try_send((seq, item));
        assert(chan@ =~= tagged(all.take(i + 1)));
        seq = seq + 1;
    }
    assert(all.take(all.len() as int) =~= all);
    chan
}

/// `outs` are the first items, in order, each with its position.
pub open spec fn fed_part<I>(items: Seq<I>, outs: Seq<(u64, I)>) -> bool {
    outs.len() <= items.len() && outs == tagged(items.take(outs.len() as int))
}

/// A worker took `ins` and passed `outs` on: under each tag a result of `stage`, in
/// the order in which the items were taken. The last item may have been taken
/// without being passed on.
pub open spec fn worked<I, O, F: Fn(I) -> O>(
    stage: F,
    ins: Seq<(u64, I)>,
    outs: Seq<(u64, O)>,
) -> bool {
    &&& outs.len() <= ins.len() <= outs.len() + 1
    &&& forall|i: int|
        0 <= i < outs.len() ==> (#[trigger] outs[i]).0 == ins[i].0 && stage.ensures(
            (ins[i].1,),
            outs[i].1,
        )
}

/// Takes items, applies `stage` and passes the results on, until none can come any
/// more, nobody can receive them or the run is stopped.
pub fn stage_worker<I: Send + 'static, O: Send + 'static, F: Fn(I) -> O, C: Stops>(
    rx: &mut Inlet<(u64, I)>,
    tx: &mut Outlet<(u64, O)>,
    cancel: &C,
    uses: &mut UseLog,
    stage: &F,
)
    requires
        !old(tx).refused(),
        forall|item: I| #[trigger] stage.requires((item,)),
    ensures
        old(rx).taken().is_prefix_of(final(rx).taken()),
        old(tx).sent().is_prefix_of(final(tx).sent()),
        ({
            let ins = since(old(rx).taken(), final(rx).taken());
            let outs = since(old(tx).sent(), final(tx).sent());
            &&& worked(*stage, ins, outs)
            &&& ins.len() > outs.len() ==> final(tx).refused() || saw_set(old(uses)@, final(uses)@)
            &&& final(rx).ended() || final(tx).refused() || saw_set(old(uses)@, final(uses)@) || ins.len() == u64::MAX
            &&& kept_stopped(cancel.token(), old(uses)@, final(uses)@)
                ==> ins.len() <= 1 && outs.len() == 0
            &&& cancel.token() is Some ==> final(uses)@.len() == old(uses)@.len() + ins.len()
        }),
        watched(cancel.token(), old(uses)@, final(uses)@),
{
    let ghost seen = uses@;
    let ghost start_in = rx.taken();
    let ghost start_out = tx.sent();
    let ghost mut ins: Seq<(u64, I)> = Seq::empty();
    let ghost mut outs: Seq<(u64, O)> = Seq::empty();
    proof {
        assert(start_in + ins =~= start_in);
        assert(start_out + outs =~= start_out);
    }
    for round in 0..u64::MAX
        invariant
            forall|item: I| #[trigger] stage.requires((item,)),
            start_in == old(rx).taken(),
            start_out == old(tx).sent(),
            rx.taken() == start_in + ins,
            tx.sent() == start_out + outs,
            !tx.refused(),
            ins.len() == round,
            outs.len() == ins.len(),
            worked(*stage, ins, outs),
            seen == old(uses)@,
            watched(cancel.token(), seen, uses@),
            !saw_set(seen, uses@),
            kept_stopped(cancel.token(), seen, uses@) ==> ins.len() == 0,
            cancel.token() is Some ==> uses@.len() == seen.len() + ins.len(),
    {
        proof {
            lemma_since(start_in, ins);
            lemma_since(start_out, outs);
        }
        match rx.recv() {
            Ok(entry) => {
                proof {
                    assert(start_in + ins.push(entry) =~= (start_in + ins).push(entry));
                    ins = ins.push(entry);
                    lemma_since(start_in, ins);
                }
                let ghost asked = uses@;
                let stop: bool = cancel_active_on_record(cancel, uses);
                proof {
                    lemma_watched_joins(cancel.token(), seen, asked, uses@);
                }
                if stop {
                    return ;
                }
                let (seq, item) = entry;
                let out = stage(item);
                match tx.send((seq, out)) {
                    Ok(_) => {
                        proof {
                            assert(start_out + outs.push((seq, out)) =~= (start_out + outs).push(
                                (seq, out),
                            ));
                            outs = outs.push((seq, out));
                        }
                    },
                    Err(_) => {
                        return ;
                    },
                }
            },
            Err(_) => {
                return ;
            },
        }
    }
    proof {
        lemma_since(start_in, ins);
        lemma_since(start_out, outs);
    }
}

/// `parts` are what `expand` turns the first items of `ins` into, in order.
pub open spec fn expansions<I, N, F: Fn(I) -> Vec<N>>(
    expand: F,
    ins: Seq<(u64, I)>,
    parts: Seq<Vec<N>>,
) -> bool {
    &&& parts.len() <= ins.len()
    &&& forall|i: int| 0 <= i < parts.len() ==> expand.ensures((ins[i].1,), #[trigger] parts[i])
}

/// `entry` is part of one of the expansions, under the tag of its item.
pub open spec fn part_of<I, N>(ins: Seq<(u64, I)>, parts: Seq<Vec<N>>, entry: (u64, N)) -> bool {
    exists|i: int|
        0 <= i < parts.len() && (#[trigger] parts[i])@.contains(entry.1) && entry.0 == ins[i].0
}

/// A worker took `ins`, expanded the items in order and passed `outs` on: all that
/// they were expanded to, in order, unless an entry was refused; then nothing else.
pub open spec fn expanded<I, N, F: Fn(I) -> Vec<N>>(
    expand: F,
    ins: Seq<(u64, I)>,
    outs: Seq<(u64, N)>,
    refused: bool,
    parts: Seq<Vec<N>>,
) -> bool {
    &&& expansions(expand, ins, parts)
    &&& parts.len() <= ins.len() <= parts.len() + 1
    &&& !refused ==> outs == tagged_parts(tags_of(ins), parts)
    &&& forall|j: int| 0 <= j < outs.len() ==> part_of(ins, parts, #[trigger] outs[j])
}

/// Takes items, expands them and passes on what they are expanded to, each under
/// the tag of its item.
pub fn expand_worker<I: Send + 'static, N: Send + 'static, F: Fn(I) -> Vec<N>, C: Stops>(
    rx: &mut Inlet<(u64, I)>,
    tx: &mut Outlet<(u64, N)>,
    cancel: &C,
    uses: &mut UseLog,
    expand: &F,
)
    requires
        !old(tx).refused(),
        forall|item: I| #[trigger] expand.requires((item,)),
    ensures
        old(rx).taken().is_prefix_of(final(rx).taken()),
        old(tx).sent().is_prefix_of(final(tx).sent()),
        ({
            let ins = since(old(rx).taken(), final(rx).taken());
            let outs = since(old(tx).sent(), final(tx).sent());
            &&& exists|parts: Seq<Vec<N>>| #[trigger]
                expanded(*expand, ins, outs, final(tx).refused(), parts) && (!saw_set(old(uses)@, final(uses)@)
                    ==> parts.len() == ins.len())
            &&& final(rx).ended() || saw_set(old(uses)@, final(uses)@) || ins.len() == u64::MAX
            &&& kept_stopped(cancel.token(), old(uses)@, final(uses)@)
                ==> ins.len() <= 1 && outs.len() == 0
            &&& cancel.token() is Some ==> final(uses)@.len() == old(uses)@.len() + ins.len()
        }),
        watched(cancel.token(), old(uses)@, final(uses)@),
{
    let ghost seen = uses@;
    let ghost start_in = rx.taken();
    let ghost start_out = tx.sent();
    let ghost mut ins: Seq<(u64, I)> = Seq::empty();
    let ghost mut outs: Seq<(u64, N)> = Seq::empty();
    let ghost mut parts: Seq<Vec<N>> = Seq::empty();
    proof {
        assert(start_in + ins =~= start_in);
        assert(start_out + outs =~= start_out);
    }
    for round in 0..u64::MAX
        invariant
            forall|item: I| #[trigger] expand.requires((item,)),
            start_in == old(rx).taken(),
            start_out == old(tx).sent(),
            rx.taken() == start_in + ins,
            tx.sent() == start_out + outs,
            ins.len() == round,
            parts.len() == ins.len(),
            expanded(*expand, ins, outs, tx.refused(), parts),
            seen == old(uses)@,
            watched(cancel.token(), seen, uses@),
            !saw_set(seen, uses@),
            kept_stopped(cancel.token(), seen, uses@) ==> ins.len() == 0 && outs.len() == 0,
            cancel.token() is Some ==> uses@.len() == seen.len() + ins.len(),
    {
        proof {
            lemma_since(start_in, ins);
            lemma_since(start_out, outs);
        }
        match rx.recv() {
            Ok(entry) => {
                let ghost ins_before = ins;
                let ghost outs_before = outs;
                let ghost parts_before = parts;
                proof {
                    assert(start_in + ins.push(entry) =~= (start_in + ins).push(entry));
                    ins = ins.push(entry);
                    lemma_since(start_in, ins);
                    lemma_taken_later(*expand, ins_before, entry, outs, tx.refused(), parts);
                }
                let ghost asked = uses@;
                let stop: bool = cancel_active_on_record(cancel, uses);
                proof {
                    lemma_watched_joins(cancel.token(), seen, asked, uses@);
                }
                if stop {
                    return ;
                }
                let (seq, item) = entry;
                let part = expand(item);
                let ghost given = part;
                let ghost refused_before = tx.refused();
                let ghost mut sent: Seq<(u64, N)> = Seq::empty();
                proof {
                    parts = parts.push(part);
                    assert(outs + sent =~= outs);
                }
                for value in it: part
                    invariant_except_break
                        tx.refused() == refused_before,
                        sent == Seq::new(it.index() as nat, |j: int| (seq, given@[j])),
                    invariant
                        it.seq() == given@,
                        start_out == old(tx).sent(),
                        outs == outs_before + sent,
                        tx.sent() == start_out + outs,
                    ensures
                        outs == outs_before + sent,
                        tx.sent() == start_out + outs,
                        sent.len() <= given@.len(),
                        sent == Seq::new(sent.len(), |j: int| (seq, given@[j])),
                        !tx.refused() ==> !refused_before && sent.len() == given@.len(),
                {
                    let ghost k = it.index() as int;
                    match tx.send((seq, value)) {
                        Ok(_) => {
                            proof {
                                assert(given@[k] == value);
                                assert(start_out + outs.push((seq, value)) =~= (start_out
                                    + outs).push((seq, value)));
                                assert(outs_before + sent.push((seq, value)) =~= outs.push(
                                    (seq, value),
                                ));
                                sent = sent.push((seq, value));
                                outs = outs.push((seq, value));
                                assert(sent =~= Seq::new((k + 1) as nat, |j: int| (seq, given@[j])));
                            }
                        },
                        Err(_) => {
                            break;
                        },
                    }
                }
                proof {
                    lemma_expanded_next(
                        *expand,
                        ins_before,
                        entry,
                        outs_before,
                        sent,
                        refused_before,
                        tx.refused(),
                        parts_before,
                        given,
                    );
                }
            },
            Err(_) => {
                return ;
            },
        }
    }
    proof {
        lemma_since(start_in, ins);
        lemma_since(start_out, outs);
    }
}

proof fn lemma_tags<I, N>(ins: Seq<(u64, I)>, more: Seq<(u64, I)>, parts: Seq<Vec<N>>)
    requires
        parts.len() <= ins.len() <= more.len(),
        forall|i: int| 0 <= i < parts.len() ==> #[trigger] ins[i] == more[i],
    ensures
        tagged_parts(tags_of(more), parts) == tagged_parts(tags_of(ins), parts),
    decreases parts.len(),
{
    if parts.len() > 0 {
        let init = parts.drop_last();
        assert forall|i: int| 0 <= i < init.len() implies #[trigger] ins[i] == more[i] by {}
        lemma_tags(ins, more, init);
        let last = parts.len() - 1;
        assert(ins[last] == more[last]);
        assert(Seq::new(parts[last]@.len(), |j: int| (tags_of(more)[last], parts[last]@[j]))
            =~= Seq::new(parts[last]@.len(), |j: int| (tags_of(ins)[last], parts[last]@[j])));
    }
}

/// Taking one more item leaves what was expanded as it is.
proof fn lemma_taken_later<I, N, F: Fn(I) -> Vec<N>>(
    expand: F,
    ins: Seq<(u64, I)>,
    entry: (u64, I),
    outs: Seq<(u64, N)>,
    refused: bool,
    parts: Seq<Vec<N>>,
)
    requires
        expanded(expand, ins, outs, refused, parts),
        parts.len() == ins.len(),
    ensures
        expanded(expand, ins.push(entry), outs, refused, parts),
{
    let more = ins.push(entry);
    lemma_tags(ins, more, parts);
    assert forall|j: int| 0 <= j < outs.len() implies part_of(more, parts, #[trigger] outs[j]) by {
        assert(part_of(ins, parts, outs[j]));
        let i = choose|i: int|
            0 <= i < parts.len() && (#[trigger] parts[i])@.contains(outs[j].1) && outs[j].0
                == ins[i].0;
        assert(more[i] == ins[i]);
        assert(parts[i]@.contains(outs[j].1));
    }
    assert forall|i: int| 0 <= i < parts.len() implies expand.ensures(
        (more[i].1,),
        #[trigger] parts[i],
    ) by {
        assert(more[i] == ins[i]);
    }
}

/// One more item was taken and expanded.
proof fn lemma_expanded_next<I, N, F: Fn(I) -> Vec<N>>(
    expand: F,
    ins: Seq<(u64, I)>,
    entry: (u64, I),
    outs: Seq<(u64, N)>,
    sent: Seq<(u64, N)>,
    refused_before: bool,
    refused: bool,
    parts: Seq<Vec<N>>,
    part: Vec<N>,
)
    requires
        expanded(expand, ins, outs, refused_before, parts),
        parts.len() == ins.len(),
        expand.ensures((entry.1,), part),
        sent.len() <= part@.len(),
        sent == Seq::new(sent.len(), |j: int| (entry.0, part@[j])),
        !refused ==> !refused_before && sent.len() == part@.len(),
    ensures
        expanded(expand, ins.push(entry), outs + sent, refused, parts.push(part)),
{
    let more = ins.push(entry);
    let all = parts.push(part);
    lemma_taken_later(expand, ins, entry, outs, refused_before, parts);
    assert forall|i: int| 0 <= i < all.len() implies expand.ensures(
        (more[i].1,),
        #[trigger] all[i],
    ) by {
        if i < parts.len() {
            assert(all[i] == parts[i]);
            assert(more[i] == ins[i]);
        }
    }
    if !refused {
        assert(all.drop_last() =~= parts);
        let last = all.len() - 1;
        assert(tags_of(more)[last] == entry.0);
        assert(Seq::new(all[last]@.len(), |j: int| (tags_of(more)[last], all[last]@[j])) =~= sent);
        assert(tagged_parts(tags_of(more), all) == tagged_parts(tags_of(more), parts) + sent);
    }
    assert forall|j: int| 0 <= j < (outs + sent).len() implies part_of(
        more,
        all,
        #[trigger] (outs + sent)[j],
    ) by {
        if j < outs.len() {
            assert(part_of(more, parts, outs[j]));
            let i = choose|i: int|
                0 <= i < parts.len() && (#[trigger] parts[i])@.contains(outs[j].1) && outs[j].0
                    == more[i].0;
            assert(all[i] == parts[i]);
        } else {
            let k = j - outs.len();
            assert(sent[k] == (entry.0, part@[k]));
            let last = all.len() - 1;
            assert(all[last] == part);
            assert(part@[k] == part@[k]);
            assert(part@.contains(part@[k]));
            assert(more[last] == entry);
        }
    }
}

/// Takes items into a fence and passes the batches on that leave it; once none can
/// come any more, passes the rest on. Where the run is stopped the rest is dropped.
#[verifier::rlimit(20)]
pub fn forward_fenced_channel<M: Send + 'static, C: Stops>(
    mid_rx: &mut Inlet<(u64, M)>,
    fenced_tx: &mut Outlet<(u64, M)>,
    mode: FenceMode,
    cancel: &C,
    uses: &mut UseLog,
)
    requires
        !old(fenced_tx).refused(),
    ensures
        old(mid_rx).taken().is_prefix_of(final(mid_rx).taken()),
        old(fenced_tx).sent().is_prefix_of(final(fenced_tx).sent()),
        ({
            let ins = since(old(mid_rx).taken(), final(mid_rx).taken());
            let outs = since(old(fenced_tx).sent(), final(fenced_tx).sent());
            &&& outs.is_prefix_of(ins)
            &&& final(mid_rx).ended() || final(fenced_tx).refused() || saw_set(old(uses)@, final(uses)@) || ins.len()
                == u64::MAX
            &&& !final(fenced_tx).refused() && !saw_set(old(uses)@, final(uses)@) && ins.len() < u64::MAX
                ==> outs
                == ins
            &&& !final(mid_rx).ended() ==> outs.is_prefix_of(
                fenced(mode.spec_chunk_size(), ins).0.flatten(),
            )
            &&& mode is Barrier && !final(mid_rx).ended() ==> outs.len() == 0
            &&& kept_stopped(cancel.token(), old(uses)@, final(uses)@)
                ==> ins.len() <= 1 && outs.len() == 0
            &&& cancel.token() is Some ==> final(uses)@.len() == old(uses)@.len() + ins.len()
        }),
        watched(cancel.token(), old(uses)@, final(uses)@),
{
    let ghost seen = uses@;
    let ghost start_in = mid_rx.taken();
    let ghost start_out = fenced_tx.sent();
    let ghost mut ins: Seq<(u64, M)> = Seq::empty();
    let ghost mut outs: Seq<(u64, M)> = Seq::empty();
    let ghost size = mode.spec_chunk_size();
    let mut fence: FenceBarrier<(u64, M)> = FenceBarrier::new(usize::MAX, mode.chunk_size());
    proof {
        assert(Seq::<Seq<(u64, M)>>::empty().flatten() =~= outs);
        assert(start_in + ins =~= start_in);
        assert(start_out + outs =~= start_out);
    }
    for round in 0..u64::MAX
        invariant
            start_in == old(mid_rx).taken(),
            start_out == old(fenced_tx).sent(),
            mid_rx.taken() == start_in + ins,
            fenced_tx.sent() == start_out + outs,
            !fenced_tx.refused(),
            ins.len() == round,
            outs + fence@ == ins,
            size == mode.spec_chunk_size(),
            fence.batch_size() == size,
            outs == fenced(size, ins).0.flatten(),
            fence@ == fenced(size, ins).1,
            seen == old(uses)@,
            watched(cancel.token(), seen, uses@),
            !saw_set(seen, uses@),
            kept_stopped(cancel.token(), seen, uses@) ==> ins.len() == 0,
            cancel.token() is Some ==> uses@.len() == seen.len() + ins.len(),
    {
        let ghost released = fenced(size, ins).0.flatten();
        proof {
            lemma_since(start_in, ins);
            lemma_since(start_out, outs);
        }
        match mid_rx.recv() {
            Ok(entry) => {
                let ghost held = fence@;
                proof {
                    assert(start_in + ins.push(entry) =~= (start_in + ins).push(entry));
                    assert(outs + held.push(entry) =~= ins.push(entry));
                    lemma_fenced_push(size, ins, entry);
                    ins = ins.push(entry);
                    lemma_since(start_in, ins);
                    assert(released.is_prefix_of(fenced(size, ins).0.flatten()));
                    if mode is Barrier {
                        lemma_barrier_flat(ins);
                    }
                }
                let ghost asked = uses@;
                let stop: bool = cancel_active_on_record(cancel, uses);
                proof {
                    lemma_watched_joins(cancel.token(), seen, asked, uses@);
                }
                if stop {
                    return ;
                }
                let batch = fence.push(entry);
                if let Some(items) = batch {
                    let ghost due = items@;
                    assert(due == held.push(entry));
                    let open: bool = send_all(items, fenced_tx);
                    proof {
                        let sent = since(start_out + outs, fenced_tx.sent());
                        assert(fenced_tx.sent() =~= start_out + (outs + sent));
                        outs = outs + sent;
                        lemma_since(start_out, outs);
                        assert(outs.is_prefix_of(ins));
                        assert(outs.is_prefix_of(fenced(size, ins).0.flatten()));
                        if open {
                            assert(outs + fence@ =~= ins);
                            assert(outs =~= fenced(size, ins).0.flatten());
                        }
                    }
                    if !open {
                        return ;
                    }
                }
            },
            Err(_) => {
                let ghost rest = fence@;
                if let Some(items) = fence.flush() {
                    let open: bool = send_all(items, fenced_tx);
                    proof {
                        let sent = since(start_out + outs, fenced_tx.sent());
                        assert(fenced_tx.sent() =~= start_out + (outs + sent));
                        outs = outs + sent;
                        lemma_since(start_out, outs);
                        assert(outs.is_prefix_of(ins));
                        if open {
                            assert(outs =~= ins);
                        }
                    }
                } else {
                    assert(outs =~= ins);
                }
                return ;
            },
        }
    }
    proof {
        lemma_since(start_in, ins);
        lemma_since(start_out, outs);
        if mode is Barrier {
            lemma_barrier_flat(ins);
        }
    }
}

/// What a barrier has released before it is flushed is nothing.
proof fn lemma_barrier_flat<T>(items: Seq<T>)
    ensures
        fenced(None, items).0.flatten().len() == 0,
{
    law_barrier_holds_everything(items);
}

/// Sends the items in order until nobody can receive them. Returns whether all were
/// sent.
fn send_all<M: Send + 'static>(items: Vec<(u64, M)>, tx: &mut Outlet<(u64, M)>) -> (open: bool)
    requires
        !old(tx).refused(),
    ensures
        old(tx).sent().is_prefix_of(final(tx).sent()),
        since(old(tx).sent(), final(tx).sent()).is_prefix_of(items@),
        open == !final(tx).refused(),
        open ==> since(old(tx).sent(), final(tx).sent()) == items@,
{
    let ghost all = items@;
    let ghost start = tx.sent();
    let ghost mut sent: Seq<(u64, M)> = Seq::empty();
    assert(start + sent =~= start);
    for entry in it: items
        invariant
            it.seq() == all,
            all == items@,
            start == old(tx).sent(),
            tx.sent() == start + sent,
            !tx.refused(),
            sent == all.take(it.index() as int),
    {
        proof {
            lemma_since(start, sent);
        }
        let ghost i = it.index() as int;
        match tx.send(entry) {
            Ok(_) => {
                proof {
                    assert(start + sent.push(entry) =~= (start + sent).push(entry));
                    sent = sent.push(entry);
                    assert(sent =~= all.take(i + 1));
                }
            },
            Err(_) => {
                return false;
            },
        }
    }
    proof {
        assert(sent =~= all);
        lemma_since(start, sent);
    }
    true
}

/// Collects what comes, in the order it comes, until none can come any more.
pub fn collect_channel<T: Send + 'static>(rx: &mut Inlet<(u64, T)>) -> (results: Vec<T>)
    ensures
        old(rx).taken().is_prefix_of(final(rx).taken()),
        ({
            let ins = since(old(rx).taken(), final(rx).taken());
            &&& results@ == Seq::new(ins.len(), |i: int| ins[i].1)
            &&& final(rx).ended() || ins.len() == u64::MAX
        }),
{
    let ghost start = rx.taken();
    let ghost mut ins: Seq<(u64, T)> = Seq::empty();
    let mut results: Vec<T> = Vec::new();
    assert(start + ins =~= start);
    for round in 0..u64::MAX
        invariant
            start == old(rx).taken(),
            rx.taken() == start + ins,
            ins.len() == round,
            results@ == Seq::new(ins.len(), |i: int| ins[i].1),
    {
        proof {
            lemma_since(start, ins);
        }
        let entry = match rx.try_recv() {
            Ok(entry) => entry,
            Err(TryRecvError::Closed) => {
                return results;
            },
            Err(TryRecvError::Empty) => match rx.recv() {
                Ok(entry) => entry,
                Err(_) => {
                    return results;
                },
            },
        };
        proof {
            assert(start + ins.push(entry) =~= (start + ins).push(entry));
            ins = ins.push(entry);
        }
        results.push(entry.1);
    }
    proof {
        lemma_since(start, ins);
    }
    results
}

/// A worker that passed on all that it took did what the stage of a pipeline does.
pub proof fn law_a_worker_is_a_stage<I: Send + 'static, O: Send + 'static, F: Fn(I) -> O>(
    stage: F,
    ins: Seq<(u64, I)>,
    outs: Seq<(u64, O)>,
)
    ensures
        worked(stage, ins, outs) && outs.len() == ins.len() <==> (SyncStage {
            prev: StreamStart,
            f: stage,
        }).flows(ins, outs, true),
        worked(stage, ins, outs) && outs.len() < ins.len() ==> worked(
            stage,
            ins.drop_last(),
            outs,
        ) && outs.len() == ins.len() - 1,
{
    let chain = SyncStage { prev: StreamStart, f: stage };
    law_a_stage_maps_what_reaches_it(chain, ins, outs, true);
    law_a_start_passes_everything_on(ins, ins, true);
    if worked(stage, ins, outs) && outs.len() == ins.len() {
        assert(chain.prev.flows(ins, ins, true));
    }
    if chain.flows(ins, outs, true) {
        let mid = choose|mid: Seq<(u64, I)>| #[trigger]
            chain.prev.flows(ins, mid, true) && outs.len() <= mid.len() && outs.len() == mid.len()
                && forall|i: int|
                0 <= i < outs.len() ==> (#[trigger] outs[i]).0 == mid[i].0 && chain.f.ensures(
                    (mid[i].1,),
                    outs[i].1,
                );
        law_a_start_passes_everything_on(ins, mid, true);
    }
    if worked(stage, ins, outs) && outs.len() < ins.len() {
        assert forall|i: int| 0 <= i < outs.len() implies (#[trigger] outs[i]).0
            == ins.drop_last()[i].0 && stage.ensures((ins.drop_last()[i].1,), outs[i].1) by {
            assert(ins.drop_last()[i] == ins[i]);
        }
    }
}

/// A worker that expanded all that it took, and whose channel took everything, did what the
/// expanding stage of a pipeline does.
pub proof fn law_an_expanding_worker_is_a_stage<
    I: Send + 'static,
    N: Send + 'static,
    F: Fn(I) -> Vec<N>,
>(expand: F, ins: Seq<(u64, I)>, outs: Seq<(u64, N)>, parts: Seq<Vec<N>>)
    requires
        expanded(expand, ins, outs, false, parts),
        parts.len() == ins.len(),
    ensures
        (ExpandStage { prev: StreamStart, f: expand }).flows(ins, outs, true),
{
    let chain = ExpandStage { prev: StreamStart, f: expand };
    law_a_start_passes_everything_on(ins, ins, true);
    assert(chain.prev.flows(ins, ins, true));
    assert(expanded_entries(chain.f, ins, parts, true));
}

/// What a worker passes on is never more than what it expanded, in values and in tags.
pub proof fn law_a_refused_part_adds_nothing<I, N, F: Fn(I) -> Vec<N>>(
    expand: F,
    ins: Seq<(u64, I)>,
    outs: Seq<(u64, N)>,
    refused: bool,
    parts: Seq<Vec<N>>,
    j: int,
)
    requires
        expanded(expand, ins, outs, refused, parts),
        0 <= j < outs.len(),
    ensures
        exists|i: int, k: int|
            0 <= i < parts.len() && 0 <= k < parts[i]@.len() && outs[j].1 == #[trigger] parts[i]@[k]
                && outs[j].0 == ins[i].0 && expand.ensures((ins[i].1,), parts[i]),
        parts.len() <= ins.len() <= parts.len() + 1,
{
    assert(part_of(ins, parts, outs[j]));
    let i = choose|i: int|
        0 <= i < parts.len() && (#[trigger] parts[i])@.contains(outs[j].1) && outs[j].0 == ins[i].0;
    let k = choose|k: int| 0 <= k < parts[i]@.len() && parts[i]@[k] == outs[j].1;
    assert(outs[j].1 == parts[i]@[k]);
}

/// What was fed is the first items, each under its position.
pub proof fn law_items_are_fed_in_order<I>(items: Seq<I>, outs: Seq<(u64, I)>, i: int)
    requires
        fed_part(items, outs),
        items.len() <= u64::MAX,
        0 <= i < outs.len(),
    ensures
        outs.len() <= items.len(),
        outs[i].0 == i,
        outs[i].1 == items[i],
{
}

/// A look at the token is one reading of it, and tells what that found; without a token
/// nothing is read, and nothing stops the run.
pub proof fn law_a_look_is_one_reading(
    cancel: Option<CancellationToken>,
    before: Seq<FlagUse>,
    after: Seq<FlagUse>,
    b: bool,
)
    requires
        looked(cancel, before, after, b),
    ensures
        match cancel {
            Some(token) => after.len() == before.len() + 1 && after.last().flag == token.flag()
                && after.last().stored is None && token.set_after(after.last().at) == b,
            None => after == before && !b,
        },
        before.is_prefix_of(after),
{
    law_a_run_sees_what_its_readings_find(cancel, before, after);
    if cancel is Some {
        assert(after[before.len() as int] == after.last());
        assert(after.last().holds());
    }
}

/// Where there is a token it is read once for every item that is passed on, and once more
/// where it stops the rest; without one nothing is read.
pub proof fn law_a_token_is_read_for_each_item(
    token: CancellationToken,
    before: Seq<FlagUse>,
    after: Seq<FlagUse>,
    passed: nat,
    n: nat,
)
    requires
        passed <= n,
        asked_for_each(Some(token), before, after, passed, n),
    ensures
        passed == n ==> after.len() - before.len() == n,
        passed < n ==> after.len() - before.len() == passed + 1,
{
}

} // verus!
