//! Reusable fused pipelines and one-call maps.
use crate::builder::config::{PipelineConfig, Workload};
use crate::builder::engine::{FnMap, RangeOp, par_index_collect};
use crate::builder::pipe::fused_collect_scoped;
use crate::builder::plan::{BALANCED_OVERSPLIT, UNBALANCED_OVERSPLIT, split_depth};
use crate::builder::stage::{
    Fence, Filter, FusedStage, Identity, Ordered, StageMarker, SyncMap, accepts_all, collects,
};
use crate::pool::registry::worker_count;
use std::marker::PhantomData;
use vstd::prelude::*;
use vstd::slice::slice_subrange;

verus! {

/// A fused pipeline that is built first and given its items last.
pub struct Pipeline<S, T> {
    stages: S,
    config: PipelineConfig,
    _marker: PhantomData<T>,
}

impl<T> Pipeline<Identity, T> {
    /// A pipeline that passes items through.
    #[must_use]
    pub fn new() -> (r: Self)
        ensures
            r.chain() == Identity,
            r.settings() == PipelineConfig::spec_for_cpus(None),
    {
        Pipeline { stages: Identity, config: PipelineConfig::default(), _marker: PhantomData }
    }
}

impl<T> Default for Pipeline<Identity, T> {
    fn default() -> (r: Self)
        ensures
            r.chain() == Identity,
            r.settings() == PipelineConfig::spec_for_cpus(None),
    {
        Pipeline::new()
    }
}

impl<S, T> Pipeline<S, T> {
    /// The stages that are applied to each item.
    pub closed spec fn chain(&self) -> S {
        self.stages
    }

    /// The settings of the run.
    pub closed spec fn settings(&self) -> PipelineConfig {
        self.config
    }

    /// Replaces the settings.
    #[must_use]
    pub fn with_config(self, config: PipelineConfig) -> (r: Self)
        ensures
            r.chain() == self.chain(),
            r.settings() == config,
    {
        Pipeline { config, ..self }
    }

    /// Appends a stage that applies `f`.
    pub fn map<O, F>(self, f: F) -> (r: Pipeline<SyncMap<S, F>, O>) where
        S: StageMarker<T>,
        F: Fn(T) -> O,

        ensures
            r.chain() == (SyncMap { prev: self.chain(), f }),
            r.settings() == self.settings(),
    {
        Pipeline {
            stages: SyncMap { prev: self.stages, f },
            config: self.config,
            _marker: PhantomData,
        }
    }

    /// Appends a stage that keeps the values for which `f` holds.
    pub fn filter<F>(self, f: F) -> (r: Pipeline<Filter<S, F>, T>) where
        S: StageMarker<T>,
        F: Fn(&T) -> bool,

        ensures
            r.chain() == (Filter { prev: self.chain(), f }),
            r.settings() == self.settings(),
    {
        Pipeline {
            stages: Filter { prev: self.stages, f },
            config: self.config,
            _marker: PhantomData,
        }
    }

    /// Appends a full barrier.
    pub fn fence(self) -> (r: Pipeline<Fence<S>, T>) where S: StageMarker<T, Output = T>
        ensures
            r.chain() == (Fence { prev: self.chain(), chunk_size: None }),
            r.settings() == self.settings(),
    {
        Pipeline {
            stages: Fence { prev: self.stages, chunk_size: None },
            config: self.config,
            _marker: PhantomData,
        }
    }

    /// Appends a barrier that releases `chunk_size` items at a time.
    pub fn fence_chunked(self, chunk_size: usize) -> (r: Pipeline<Fence<S>, T>) where
        S: StageMarker<T, Output = T>,

        ensures
            r.chain() == (Fence { prev: self.chain(), chunk_size: Some(chunk_size) }),
            r.settings() == self.settings(),
    {
        Pipeline {
            stages: Fence { prev: self.stages, chunk_size: Some(chunk_size) },
            config: self.config,
            _marker: PhantomData,
        }
    }

    /// Asks for output in input order.
    pub fn ordered(self) -> (r: Pipeline<Ordered<S>, T>) where S: StageMarker<T, Output = T>
        ensures
            r.chain() == (Ordered { prev: self.chain() }),
            r.settings() == self.settings(),
    {
        Pipeline {
            stages: Ordered { prev: self.stages },
            config: self.config,
            _marker: PhantomData,
        }
    }
}

impl<S, T> Pipeline<S, T> where S: FusedStage<T> {
    /// Runs the pipeline over `items` and returns what the chain lets through,
    /// in item order.
    pub fn collect(self, items: Vec<T>) -> (r: Vec<S::Output>)
        requires
            accepts_all(self.chain(), items@),
        ensures
            collects(self.chain(), items@, r@),
    {
        fused_collect_scoped(items, self.stages, self.config.workload, self.config.compute_workers)
    }
}

/// `r` holds a result of `f` for every item, in its item's place.
pub open spec fn map_results<T, R, F: Fn(T) -> R>(f: F, items: Seq<T>, r: Seq<R>) -> bool {
    &&& r.len() == items.len()
    &&& forall|i: int| 0 <= i < items.len() ==> f.ensures((items[i],), #[trigger] r[i])
}

/// Whether `f` may be called on every item.
pub open spec fn map_accepts<T, R, F: Fn(T) -> R>(f: F, items: Seq<T>) -> bool {
    forall|i: int| 0 <= i < items.len() ==> f.requires((#[trigger] items[i],))
}

/// Applies `f` to every item, for a balanced workload.
pub fn par_map<T, R, F>(items: Vec<T>, f: F) -> (r: Vec<R>) where F: Fn(T) -> R
    requires
        map_accepts(f, items@),
    ensures
        map_results(f, items@, r@),
{
    par_map_with_workload(items, f, Workload::Balanced)
}

/// Applies `f` to every item.
pub fn par_map_with_workload<T, R, F>(items: Vec<T>, f: F, workload: Workload) -> (r: Vec<
    R,
>) where F: Fn(T) -> R
    requires
        map_accepts(f, items@),
    ensures
        map_results(f, items@, r@),
{
    let n: usize = items.len();
    if n == 0 {
        return Vec::new();
    }
    let num_threads: usize = worker_count(PipelineConfig::default().compute_workers);
    let oversplit: usize = match workload {
        Workload::Balanced => BALANCED_OVERSPLIT,
        Workload::Unbalanced => UNBALANCED_OVERSPLIT,
    };
    assert(num_threads * oversplit <= 65535 * 8) by (nonlinear_arith)
        requires
            num_threads <= 65535,
            oversplit <= 8,
    ;
    let splits: usize = split_depth(n, num_threads, oversplit);
    let op = FnMap(f);
    let ghost all = items@;
    proof {
        assert forall|i: int| 0 <= i < all.len() implies RangeOp::<T>::takes(&op, #[trigger] all[i]) by {}
    }
    let r = par_index_collect(items, &op, splits, num_threads);
    proof {
        assert forall|i: int| 0 <= i < all.len() implies op.0.ensures((all[i],), #[trigger] r@[i]) by {
            assert(RangeOp::<T>::yields(&op, all[i], r@[i]));
        }
    }
    r
}

/// Whether `f` can succeed on `item`.
pub open spec fn may_pass<T, R, E, F: Fn(T) -> Result<R, E>>(f: F, item: T) -> bool {
    exists|v: R| #[trigger] f.ensures((item,), Ok::<R, E>(v))
}

/// `f` failed on item `k` with `error` and passed on every item before it.
pub open spec fn fails_first<T, R, E, F: Fn(T) -> Result<R, E>>(
    f: F,
    items: Seq<T>,
    k: int,
    error: E,
) -> bool {
    &&& 0 <= k < items.len()
    &&& f.ensures((items[k],), Err::<R, E>(error))
    &&& forall|j: int| 0 <= j < k ==> may_pass(f, #[trigger] items[j])
}

/// `values` are results of `f` on the items, none of which failed.
pub open spec fn all_pass<T, R, E, F: Fn(T) -> Result<R, E>>(
    f: F,
    items: Seq<T>,
    values: Seq<R>,
) -> bool {
    &&& values.len() == items.len()
    &&& forall|i: int|
        0 <= i < items.len() ==> f.ensures((items[i],), Ok::<R, E>(#[trigger] values[i]))
}

/// What a fallible map returns: every value in its item's place, or the error of
/// the first item that fails.
pub open spec fn try_map_results<T, R, E, F: Fn(T) -> Result<R, E>>(
    f: F,
    items: Seq<T>,
    r: Result<Vec<R>, E>,
) -> bool {
    match r {
        Ok(values) => all_pass(f, items, values@),
        Err(error) => exists|k: int| #[trigger] fails_first(f, items, k, error),
    }
}

fn serial_try_map<T, R, E, F>(items: Vec<T>, f: &F) -> (r: Result<Vec<R>, E>) where
    F: Fn(T) -> Result<R, E>,

    requires
        map_accepts(*f, items@),
    ensures
        try_map_results(*f, items@, r),
{
    let ghost all = items@;
    let mut values: Vec<R> = Vec::new();
    for item in it: items
        invariant
            it.seq() == all,
            map_accepts(*f, all),
            values@.len() == it.index(),
            forall|i: int|
                0 <= i < values@.len() ==> f.ensures((all[i],), Ok::<R, E>(#[trigger] values@[i])),
    {
        let ghost k = it.index() as int;
        match f(item) {
            Ok(v) => {
                values.push(v);
            },
            Err(e) => {
                proof {
                    assert forall|j: int| 0 <= j < k implies may_pass(*f, #[trigger] all[j]) by {
                        assert(f.ensures((all[j],), Ok::<R, E>(values@[j])));
                    }
                    assert(fails_first(*f, all, k, e));
                }
                let r: Result<Vec<R>, E> = Err(e);
                assert(fails_first(*f, all, k, r->Err_0));
                return r;
            },
        }
    }
    Ok(values)
}

/// Applies the fallible `f` by halves, down to `splits_left` levels. Both halves
/// are always worked through; the error of the left one comes first.
fn join_try_map<T, R, E, F>(items: Vec<T>, f: &F, splits_left: usize) -> (r: Result<
    Vec<R>,
    E,
>) where F: Fn(T) -> Result<R, E>
    requires
        map_accepts(*f, items@),
    ensures
        try_map_results(*f, items@, r),
    decreases splits_left,
{
    if splits_left == 0 || items.len() <= 1 {
        return serial_try_map(items, f);
    }
    let ghost all = items@;
    let mid: usize = items.len() / 2;
    let mut left = items;
    let right = left.split_off(mid);
    let ghost halves = (left@, right@);
    assert(halves.0 + halves.1 =~= all);
    assert(map_accepts(*f, halves.0)) by {
        assert forall|i: int| 0 <= i < halves.0.len() implies f.requires((#[trigger] halves.0[i],)) by {
            assert(halves.0[i] == all[i]);
        }
    }
    assert(map_accepts(*f, halves.1)) by {
        assert forall|i: int| 0 <= i < halves.1.len() implies f.requires((#[trigger] halves.1[i],)) by {
            assert(halves.1[i] == all[mid + i]);
        }
    }
    let left_r = join_try_map(left, f, splits_left - 1);
    let right_r = join_try_map(right, f, splits_left - 1);
    match (left_r, right_r) {
        (Ok(mut l), Ok(mut r)) => {
            let ghost parts = (l@, r@);
            l.append(&mut r);
            proof {
                assert forall|i: int| 0 <= i < all.len() implies f.ensures(
                    (all[i],),
                    Ok::<R, E>(#[trigger] l@[i]),
                ) by {
                    if i < mid {
                        assert(l@[i] == parts.0[i] && all[i] == halves.0[i]);
                    } else {
                        assert(l@[i] == parts.1[i - mid] && all[i] == halves.1[i - mid]);
                    }
                }
            }
            Ok(l)
        },
        (Err(e), _) => {
            proof {
                let k = choose|k: int| #[trigger] fails_first(*f, halves.0, k, e);
                assert forall|j: int| 0 <= j < k implies may_pass(*f, #[trigger] all[j]) by {
                    assert(halves.0[j] == all[j]);
                }
                assert(fails_first(*f, all, k, e));
            }
            Err(e)
        },
        (Ok(l), Err(e)) => {
            proof {
                let k = choose|k: int| #[trigger] fails_first(*f, halves.1, k, e);
                assert forall|j: int| 0 <= j < mid + k implies may_pass(*f, #[trigger] all[j]) by {
                    if j < mid {
                        assert(f.ensures((halves.0[j],), Ok::<R, E>(l@[j])));
                    } else {
                        assert(halves.1[j - mid] == all[j]);
                    }
                }
                assert(fails_first(*f, all, mid + k, e));
            }
            Err(e)
        },
    }
}

/// Applies the fallible `f` to every item: all values in item order, or the
/// error of the first item that fails.
pub fn try_par_map<T, R, E, F>(items: Vec<T>, f: F) -> (r: Result<Vec<R>, E>) where
    F: Fn(T) -> Result<R, E>,

    requires
        map_accepts(f, items@),
    ensures
        try_map_results(f, items@, r),
{
    let n: usize = items.len();
    let num_threads: usize = worker_count(PipelineConfig::default().compute_workers);
    if n <= 1 || num_threads <= 1 {
        return serial_try_map(items, &f);
    }
    let splits: usize = split_depth(n, num_threads, BALANCED_OVERSPLIT);
    join_try_map(items, &f, splits)
}

/// How many chunks of `size` items `n` items make, the last one possibly short.
pub open spec fn chunks_in(n: nat, size: nat) -> nat
    recommends
        size > 0,
{
    (n + size - 1) as nat / size
}

/// Chunk `k` of `items`.
pub open spec fn chunk_of<T>(items: Seq<T>, size: nat, k: int) -> Seq<T> {
    let end = (k + 1) * size;
    items.subrange(
        k * size,
        if end <= items.len() {
            end
        } else {
            items.len() as int
        },
    )
}

/// Whether `f` may be called on a slice that holds `chunk`.
pub open spec fn chunk_accepted<T, R, F: Fn(&[T]) -> Vec<R>>(f: F, chunk: Seq<T>) -> bool {
    forall|s: &[T]| s@ == chunk ==> #[trigger] f.requires((s,))
}

/// Whether `f` can return `part` for a slice that holds `chunk`.
pub open spec fn chunk_yields<T, R, F: Fn(&[T]) -> Vec<R>>(
    f: F,
    chunk: Seq<T>,
    part: Vec<R>,
) -> bool {
    exists|s: &[T]| s@ == chunk && #[trigger] f.ensures((s,), part)
}

/// `parts` are results of `f`, one for each chunk of `items`.
pub open spec fn chunk_parts<T, R, F: Fn(&[T]) -> Vec<R>>(
    f: F,
    items: Seq<T>,
    size: nat,
    parts: Seq<Vec<R>>,
) -> bool {
    &&& parts.len() == chunks_in(items.len(), size)
    &&& forall|k: int|
        0 <= k < parts.len() ==> chunk_yields(f, chunk_of(items, size, k), #[trigger] parts[k])
}

/// The contents of `parts`, joined in order.
pub open spec fn joined<R>(parts: Seq<Vec<R>>) -> Seq<R>
    decreases parts.len(),
{
    if parts.len() == 0 {
        Seq::empty()
    } else {
        joined(parts.drop_last()) + parts.last()@
    }
}

/// `r` is what `f` returns for the chunks of `items`, joined in order.
pub open spec fn chunk_results<T, R, F: Fn(&[T]) -> Vec<R>>(
    f: F,
    items: Seq<T>,
    size: nat,
    r: Seq<R>,
) -> bool {
    exists|parts: Seq<Vec<R>>| #[trigger] chunk_parts(f, items, size, parts) && r == joined(parts)
}

/// Whether `f` may be called on every chunk of `items`.
pub open spec fn chunks_accepted<T, R, F: Fn(&[T]) -> Vec<R>>(
    f: F,
    items: Seq<T>,
    size: nat,
) -> bool {
    forall|k: int|
        0 <= k < chunks_in(items.len(), size) ==> chunk_accepted(
            f,
            #[trigger] chunk_of(items, size, k),
        )
}

/// Joining two lists of parts joins their contents.
pub proof fn lemma_joined_add<R>(a: Seq<Vec<R>>, b: Seq<Vec<R>>)
    ensures
        joined(a + b) == joined(a) + joined(b),
    decreases b.len(),
{
    if b.len() == 0 {
        assert(a + b =~= a);
        assert(joined(a) + joined(b) =~= joined(a));
    } else {
        lemma_joined_add(a, b.drop_last());
        assert((a + b).drop_last() =~= a + b.drop_last());
        assert((a + b).last() == b.last());
        assert((joined(a) + joined(b.drop_last())) + b.last()@ =~= joined(a) + (joined(
            b.drop_last(),
        ) + b.last()@));
    }
}

/// The number of chunks in terms of the quotient and the rest.
proof fn lemma_chunks_in(n: nat, size: nat)
    requires
        size > 0,
    ensures
        chunks_in(n, size) == n / size + if n % size == 0 {
            0nat
        } else {
            1nat
        },
        n == size * (n / size) + n % size,
        n % size < size,
{
    let q = n / size;
    let r = n % size;
    vstd::arithmetic::div_mod::lemma_fundamental_div_mod(n as int, size as int);
    if r == 0 {
        assert((n + size - 1) as nat / size == q) by (nonlinear_arith)
            requires
                n == size * q,
                size > 0,
        ;
    } else {
        assert((n + size - 1) as nat / size == q + 1) by (nonlinear_arith)
            requires
                n == size * q + r,
                0 < r < size,
        ;
    }
}

/// Cutting an input at a chunk boundary cuts its list of chunks.
proof fn lemma_chunks_split<T>(left: Seq<T>, right: Seq<T>, size: nat, c: nat)
    requires
        size > 0,
        left.len() == c * size,
    ensures
        chunks_in(left.len(), size) == c,
        chunks_in((left + right).len(), size) == c + chunks_in(right.len(), size),
        forall|k: int| 0 <= k < c
            ==> #[trigger] chunk_of(left + right, size, k) == chunk_of(left, size, k),
        forall|k: int|
            0 <= k < chunks_in(right.len(), size) ==> chunk_of(left + right, size, c + k)
                == #[trigger] chunk_of(right, size, k),
{
    let n = (left + right).len();
    let m = right.len();
    lemma_chunks_in(left.len(), size);
    lemma_chunks_in(m, size);
    lemma_chunks_in(n, size);
    vstd::arithmetic::div_mod::lemma_mod_multiples_basic(c as int, size as int);
    vstd::arithmetic::div_mod::lemma_div_multiples_vanish(c as int, size as int);
    assert(size * c == c * size) by (nonlinear_arith);
    vstd::arithmetic::div_mod::lemma_mod_multiples_vanish(c as int, m as int, size as int);
    vstd::arithmetic::div_mod::lemma_hoist_over_denominator(m as int, c as int, size);
    assert forall|k: int| 0 <= k < c implies #[trigger] chunk_of(left + right, size, k) == chunk_of(
        left,
        size,
        k,
    ) by {
        assert((k + 1) * size <= c * size && 0 <= k * size <= (k + 1) * size) by (nonlinear_arith)
            requires
                0 <= k < c,
        ;
        assert(chunk_of(left + right, size, k) =~= chunk_of(left, size, k));
    }
    assert forall|k: int| 0 <= k < chunks_in(m, size) implies chunk_of(left + right, size, c + k)
        == #[trigger] chunk_of(right, size, k) by {
        assert((c + k) * size == c * size + k * size && (c + k + 1) * size == c * size + (k + 1) * size
            && 0 <= k * size <= (k + 1) * size) by (nonlinear_arith)
            requires
                0 <= k,
        ;
        lemma_chunk_starts_inside(m, size, k);
        assert(chunk_of(left + right, size, c + k) =~= chunk_of(right, size, k));
    }
}

/// Every chunk starts within the items.
proof fn lemma_chunk_starts_inside(n: nat, size: nat, k: int)
    requires
        size > 0,
        0 <= k < chunks_in(n, size),
    ensures
        0 <= k * size < n,
        k < n / size ==> (k + 1) * size <= n,
        k == n / size ==> (k + 1) * size > n,
{
    lemma_chunks_in(n, size);
    let q = (n / size) as int;
    assert(0 <= k * size <= q * size) by (nonlinear_arith)
        requires
            0 <= k <= q,
    ;
    assert(q * size == size * q) by (nonlinear_arith);
    if k < q {
        assert((k + 1) * size <= q * size && k * size < (k + 1) * size) by (nonlinear_arith)
            requires
                0 <= k < q,
                size > 0,
        ;
    } else {
        assert((k + 1) * size == k * size + size) by (nonlinear_arith);
    }
}

/// The results of two parts, cut at a chunk boundary, joined.
proof fn lemma_chunk_results_add<T, R, F: Fn(&[T]) -> Vec<R>>(
    f: F,
    left: Seq<T>,
    right: Seq<T>,
    size: nat,
    c: nat,
    a: Seq<R>,
    b: Seq<R>,
)
    requires
        size > 0,
        left.len() == c * size,
        chunk_results(f, left, size, a),
        chunk_results(f, right, size, b),
    ensures
        chunk_results(f, left + right, size, a + b),
{
    lemma_chunks_split(left, right, size, c);
    let pa = choose|parts: Seq<Vec<R>>| #[trigger]
        chunk_parts(f, left, size, parts) && a == joined(parts);
    let pb = choose|parts: Seq<Vec<R>>| #[trigger]
        chunk_parts(f, right, size, parts) && b == joined(parts);
    lemma_joined_add(pa, pb);
    assert forall|k: int| 0 <= k < (pa + pb).len() implies chunk_yields(
        f,
        chunk_of(left + right, size, k),
        #[trigger] (pa + pb)[k],
    ) by {
        if k < c {
            assert((pa + pb)[k] == pa[k]);
            assert(chunk_of(left + right, size, k) == chunk_of(left, size, k));
        } else {
            assert((pa + pb)[k] == pb[k - c]);
            assert(chunk_of(right, size, k - c) == chunk_of(left + right, size, c + (k - c)));
        }
    }
    assert(chunk_parts(f, left + right, size, pa + pb));
}

fn serial_chunks_map<T, R, F>(items: Vec<T>, chunk_size: usize, f: &F) -> (r: Vec<R>) where
    F: Fn(&[T]) -> Vec<R>,

    requires
        chunk_size > 0,
        chunks_accepted(*f, items@, chunk_size as nat),
    ensures
        chunk_results(*f, items@, chunk_size as nat, r@),
{
    let n: usize = items.len();
    let size: usize = chunk_size;
    let mut r: Vec<R> = Vec::new();
    let mut pos: usize = 0;
    let ghost mut k: int = 0;
    let ghost mut parts: Seq<Vec<R>> = Seq::empty();
    proof {
        lemma_chunks_in(n as nat, size as nat);
        assert(0 * size == 0 && size * 0 == 0) by (nonlinear_arith);
    }
    while pos < n
        invariant
            n == items@.len(),
            size == chunk_size > 0,
            chunks_accepted(*f, items@, size as nat),
            0 <= k <= chunks_in(n as nat, size as nat),
            pos == if k * size <= n {
                k * size
            } else {
                n as int
            },
            pos < n ==> k < chunks_in(n as nat, size as nat),
            pos == n ==> k == chunks_in(n as nat, size as nat),
            parts.len() == k,
            forall|j: int|
                0 <= j < k ==> chunk_yields(
                    *f,
                    chunk_of(items@, size as nat, j),
                    #[trigger] parts[j],
                ),
            r@ == joined(parts),
        decreases n - pos,
    {
        let end: usize = if n - pos <= size {
            n
        } else {
            pos + size
        };
        let part = slice_subrange(items.as_slice(), pos, end);
        proof {
            lemma_chunk_starts_inside(n as nat, size as nat, k);
            lemma_chunks_in(n as nat, size as nat);
            assert((k + 1) * size == k * size + size) by (nonlinear_arith);
            assert(part@ =~= chunk_of(items@, size as nat, k));
            assert(chunk_accepted(*f, chunk_of(items@, size as nat, k)));
        }
        let mut out = f(part);
        let ghost before = parts;
        proof {
            assert(chunk_yields(*f, chunk_of(items@, size as nat, k), out));
            parts = parts.push(out);
            assert(parts.drop_last() =~= before);
            lemma_chunk_end(n as nat, size as nat, k);
            k = k + 1;
        }
        r.append(&mut out);
        pos = end;
    }
    proof {
        assert(chunk_parts(*f, items@, size as nat, parts));
    }
    r
}

/// Whether chunk `k` is the last one shows in where it ends.
proof fn lemma_chunk_end(n: nat, size: nat, k: int)
    requires
        size > 0,
        0 <= k < chunks_in(n, size),
    ensures
        (k + 1) * size < n <==> k + 1 < chunks_in(n, size),
{
    lemma_chunks_in(n, size);
    lemma_chunk_starts_inside(n, size, k);
    let q = (n / size) as int;
    assert(q * size == size * q) by (nonlinear_arith);
    if k + 1 < chunks_in(n, size) {
        lemma_chunk_starts_inside(n, size, k + 1);
    } else if k < q {
        assert(k + 1 == q);
    }
}

/// Applies `f` chunk by chunk, by halves that meet at a chunk boundary.
fn join_chunks_map<T, R, F>(items: Vec<T>, chunk_size: usize, f: &F, splits_left: usize) -> (r: Vec<
    R,
>) where F: Fn(&[T]) -> Vec<R>
    requires
        chunk_size > 0,
        chunks_accepted(*f, items@, chunk_size as nat),
    ensures
        chunk_results(*f, items@, chunk_size as nat, r@),
    decreases splits_left,
{
    if splits_left == 0 || items.len() <= chunk_size {
        return serial_chunks_map(items, chunk_size, f);
    }
    let ghost all = items@;
    let c: usize = ((items.len() / 2) / chunk_size).max(1);
    proof {
        let q = (all.len() / 2) as int / chunk_size as int;
        vstd::arithmetic::div_mod::lemma_fundamental_div_mod(
            (all.len() / 2) as int,
            chunk_size as int,
        );
        assert(q * chunk_size == chunk_size * q) by (nonlinear_arith);
        assert(1 * chunk_size == chunk_size) by (nonlinear_arith);
        assert(c * chunk_size <= all.len());
    }
    let mid: usize = c * chunk_size;
    let mut left = items;
    let right = left.split_off(mid);
    let ghost halves = (left@, right@);
    proof {
        assert(halves.0 + halves.1 =~= all);
        lemma_chunks_split(halves.0, halves.1, chunk_size as nat, c as nat);
        assert forall|k: int| 0 <= k < chunks_in(halves.0.len(), chunk_size as nat) implies chunk_accepted(
            *f,
            #[trigger] chunk_of(halves.0, chunk_size as nat, k),
        ) by {
            assert(chunk_of(all, chunk_size as nat, k) == chunk_of(halves.0, chunk_size as nat, k));
        }
        assert forall|k: int| 0 <= k < chunks_in(halves.1.len(), chunk_size as nat) implies chunk_accepted(
            *f,
            #[trigger] chunk_of(halves.1, chunk_size as nat, k),
        ) by {
            assert(chunk_of(all, chunk_size as nat, c + k) == chunk_of(
                halves.1,
                chunk_size as nat,
                k,
            ));
        }
    }
    let mut result = join_chunks_map(left, chunk_size, f, splits_left - 1);
    let mut rest = join_chunks_map(right, chunk_size, f, splits_left - 1);
    proof {
        lemma_chunk_results_add(
            *f,
            halves.0,
            halves.1,
            chunk_size as nat,
            c as nat,
            result@,
            rest@,
        );
    }
    result.append(&mut rest);
    result
}

/// Applies `f` to every chunk of `chunk_size` items and joins what it returns.
/// Chunks of no items give no results.
pub fn par_chunks_map<T, R, F>(items: Vec<T>, chunk_size: usize, f: F) -> (r: Vec<R>) where
    F: Fn(&[T]) -> Vec<R>,

    requires
        chunk_size > 0 ==> chunks_accepted(f, items@, chunk_size as nat),
    ensures
        chunk_size == 0 ==> r@.len() == 0,
        chunk_size > 0 ==> chunk_results(f, items@, chunk_size as nat, r@),
{
    let n: usize = items.len();
    if chunk_size == 0 {
        return Vec::new();
    }
    let num_threads: usize = worker_count(PipelineConfig::default().compute_workers);
    if n <= chunk_size || num_threads <= 1 {
        return serial_chunks_map(items, chunk_size, &f);
    }
    proof {
        lemma_chunks_in(n as nat, chunk_size as nat);
        let q = n as nat / chunk_size as nat;
        assert(q <= chunk_size * q) by (nonlinear_arith)
            requires
                chunk_size > 0,
        ;
    }
    let num_chunks: usize = n / chunk_size + if n % chunk_size == 0 {
        0
    } else {
        1
    };
    let splits: usize = split_depth(num_chunks, num_threads, BALANCED_OVERSPLIT);
    join_chunks_map(items, chunk_size, &f, splits)
}

} // verus!
