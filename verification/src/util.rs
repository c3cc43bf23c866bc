//! Powers of two and even chunking.
use vstd::arithmetic::power2::{lemma_pow2_pos, lemma_pow2_strictly_increases, lemma_pow2_unfold, pow2};
use vstd::bits::{lemma_u64_low_bits_mask_is_mod, low_bits_mask};
use vstd::prelude::*;

verus! {

/// The least `k` with `2^k >= n`.
pub open spec fn ceil_log2_spec(n: nat) -> nat
    decreases n,
{
    if n <= 1 {
        0
    } else {
        1 + ceil_log2_spec((n + 1) / 2)
    }
}

/// The least power of two that is at least `n`.
pub open spec fn next_pow2(n: nat) -> nat {
    pow2(ceil_log2_spec(n))
}

/// `ceil_log2_spec(n)` is the least exponent whose power reaches `n`.
pub proof fn lemma_ceil_log2_least(n: nat, k: nat)
    ensures
        ceil_log2_spec(n) <= k <==> n <= pow2(k),
    decreases n,
{
    lemma_pow2_pos(k);
    if n > 1 {
        if k == 0 {
            assert(pow2(0) == 1) by {
                vstd::arithmetic::power2::lemma2_to64();
            }
        } else {
            lemma_ceil_log2_least((n + 1) / 2, (k - 1) as nat);
            lemma_pow2_unfold(k);
        }
    }
}

/// The next power of two reaches `n` and is below twice `n`.
pub proof fn lemma_next_pow2_bounds(n: nat)
    ensures
        n <= next_pow2(n),
        n >= 1 ==> next_pow2(n) < 2 * n,
        1 <= next_pow2(n),
{
    lemma_ceil_log2_least(n, ceil_log2_spec(n));
    lemma_pow2_pos(ceil_log2_spec(n));
    if n >= 1 {
        let k = ceil_log2_spec(n);
        if k > 0 {
            lemma_ceil_log2_least(n, (k - 1) as nat);
            lemma_pow2_unfold(k);
        } else {
            assert(pow2(0) == 1) by {
                vstd::arithmetic::power2::lemma2_to64();
            }
        }
    }
}

/// A larger number has no smaller next power of two.
pub proof fn lemma_next_pow2_monotone(m: nat, n: nat)
    requires
        m <= n,
    ensures
        ceil_log2_spec(m) <= ceil_log2_spec(n),
        next_pow2(m) <= next_pow2(n),
{
    lemma_ceil_log2_least(n, ceil_log2_spec(n));
    lemma_ceil_log2_least(m, ceil_log2_spec(n));
    if ceil_log2_spec(m) < ceil_log2_spec(n) {
        lemma_pow2_strictly_increases(ceil_log2_spec(m), ceil_log2_spec(n));
    }
}

/// Masking with `2^k - 1` is the remainder by `2^k`.
pub proof fn lemma_mask_is_mod(x: u64, cap: u64, k: nat)
    requires
        cap == pow2(k),
        k < 64,
    ensures
        x & (cap - 1) as u64 == x % cap,
        cap > 0,
{
    lemma_pow2_pos(k);
    lemma_u64_low_bits_mask_is_mod(x, k);
    assert(low_bits_mask(k) == cap - 1);
}

/// The exponent of the least power of two that is at least `n`.
pub fn ceil_log2(n: usize) -> (k: usize)
    ensures
        k == ceil_log2_spec(n as nat),
{
    let mut m: usize = n;
    let mut k: usize = 0;
    while m > 1
        invariant
            k + ceil_log2_spec(m as nat) == ceil_log2_spec(n as nat),
            k + m <= n || m <= 1 && k <= n,
        decreases m,
    {
        m = m / 2 + m % 2;
        k = k + 1;
    }
    k
}

/// The least power of two that is at least `n`.
pub fn next_power_of_two(n: usize) -> (p: usize)
    requires
        next_pow2(n as nat) <= usize::MAX,
    ensures
        p == next_pow2(n as nat),
{
    let mut p: usize = 1;
    let ghost mut k: nat = 0;
    proof {
        vstd::arithmetic::power2::lemma2_to64();
    }
    while p < n
        invariant
            p == pow2(k),
            k <= ceil_log2_spec(n as nat),
            next_pow2(n as nat) <= usize::MAX,
        decreases usize::MAX - p,
    {
        proof {
            lemma_ceil_log2_least(n as nat, k);
            lemma_pow2_unfold(k + 1);
            lemma_pow2_pos(k);
            if k + 1 < ceil_log2_spec(n as nat) {
                lemma_pow2_strictly_increases(k + 1, ceil_log2_spec(n as nat));
            }
        }
        p = p * 2;
        proof {
            k = k + 1;
        }
    }
    proof {
        lemma_ceil_log2_least(n as nat, k);
    }
    p
}

/// Where chunk `i` starts when `n` items are dealt evenly over `k` chunks, the
/// first `n % k` of which hold one item more.
pub open spec fn chunk_start(n: nat, k: nat, i: nat) -> nat
    recommends
        k > 0,
{
    i * (n / k) + if i < n % k {
        i
    } else {
        n % k
    }
}

/// How many chunks `n` items are dealt over when `wanted` are asked for.
pub open spec fn chunk_count(n: nat, wanted: nat) -> nat {
    if n == 0 {
        0
    } else if wanted == 0 {
        1
    } else if wanted > n {
        n
    } else {
        wanted
    }
}

/// Chunk `i + 1` starts right after the items of chunk `i`.
pub proof fn lemma_chunk_step(n: nat, k: nat, i: nat)
    requires
        k > 0,
        i < k,
    ensures
        chunk_start(n, k, i + 1) == chunk_start(n, k, i) + n / k + if i < n % k {
            1nat
        } else {
            0nat
        },
{
    let q = n / k;
    assert((i + 1) * q == i * q + q) by (nonlinear_arith);
}

/// The first chunk starts at zero and the chunks together cover all `n` items.
pub proof fn lemma_chunk_ends(n: nat, k: nat)
    requires
        k > 0,
    ensures
        chunk_start(n, k, 0) == 0,
        chunk_start(n, k, k) == n,
{
    vstd::arithmetic::div_mod::lemma_fundamental_div_mod(n as int, k as int);
    assert(0 * (n / k) == 0) by (nonlinear_arith);
}

/// Chunk starts never decrease and stay within the items.
pub proof fn lemma_chunk_order(n: nat, k: nat, i: nat, j: nat)
    requires
        k > 0,
        i <= j <= k,
    ensures
        chunk_start(n, k, i) <= chunk_start(n, k, j) <= n,
    decreases k - i,
{
    if i < j {
        lemma_chunk_step(n, k, i);
        lemma_chunk_order(n, k, i + 1, j);
    } else if j < k {
        lemma_chunk_step(n, k, j);
        lemma_chunk_order(n, k, j + 1, k);
    } else {
        lemma_chunk_ends(n, k);
    }
}

/// Deals `items` over `num_chunks` chunks as evenly as possible, in order.
///
/// At least one chunk is made of a non-empty input and none is empty.
pub fn split_chunks<T>(items: Vec<T>, num_chunks: usize) -> (chunks: Vec<Vec<T>>)
    ensures
        chunks@.len() == chunk_count(items@.len(), num_chunks as nat),
        forall|i: int|
            0 <= i < chunks@.len() ==> (#[trigger] chunks@[i])@ == items@.subrange(
                chunk_start(items@.len(), chunks@.len(), i as nat) as int,
                chunk_start(items@.len(), chunks@.len(), (i + 1) as nat) as int,
            ),
{
    let n: usize = items.len();
    let mut chunks: Vec<Vec<T>> = Vec::new();
    if n == 0 {
        return chunks;
    }
    let k: usize = num_chunks.max(1).min(n);
    let base: usize = n / k;
    let remainder: usize = n % k;
    let ghost all = items@;
    let mut rest = items;
    proof {
        lemma_chunk_ends(n as nat, k as nat);
    }
    for i in 0..k
        invariant
            n == all.len(),
            k == chunk_count(n as nat, num_chunks as nat),
            0 < k,
            base == n / k,
            remainder == n % k,
            chunks@.len() == i,
            rest@ == all.skip(chunk_start(n as nat, k as nat, i as nat) as int),
            chunk_start(n as nat, k as nat, i as nat) <= n,
            forall|j: int|
                0 <= j < i ==> (#[trigger] chunks@[j])@ == all.subrange(
                    chunk_start(n as nat, k as nat, j as nat) as int,
                    chunk_start(n as nat, k as nat, (j + 1) as nat) as int,
                ),
    {
        proof {
            lemma_chunk_step(n as nat, k as nat, i as nat);
            lemma_chunk_order(n as nat, k as nat, i as nat, (i + 1) as nat);
        }
        let size: usize = if i < remainder {
            base + 1
        } else {
            base
        };
        let tail = rest.split_off(size);
        chunks.push(rest);
        rest = tail;
    }
    chunks
}

/// Chunk sizes differ by at most one, and no chunk is empty.
pub proof fn law_chunks_are_even(n: nat, wanted: nat, i: nat)
    requires
        i < chunk_count(n, wanted),
    ensures
        ({
            let k = chunk_count(n, wanted);
            let size = chunk_start(n, k, i + 1) - chunk_start(n, k, i);
            &&& n / k <= size <= n / k + 1
            &&& size >= 1
        }),
{
    let k = chunk_count(n, wanted);
    lemma_chunk_step(n, k, i);
    assert(n / k >= 1) by (nonlinear_arith)
        requires
            n >= k,
            k > 0,
    ;
}

/// Splitting loses nothing: the chunks joined in order are the input.
pub proof fn law_chunks_join_to_items<T>(items: Seq<T>, chunks: Seq<Seq<T>>, wanted: nat)
    requires
        chunks.len() == chunk_count(items.len(), wanted),
        forall|i: int|
            0 <= i < chunks.len() ==> #[trigger] chunks[i] == items.subrange(
                chunk_start(items.len(), chunks.len(), i as nat) as int,
                chunk_start(items.len(), chunks.len(), (i + 1) as nat) as int,
            ),
    ensures
        chunks.flatten() == items,
{
    if items.len() == 0 {
        assert(chunks.flatten() =~= items);
    } else {
        let k = chunks.len();
        lemma_chunk_ends(items.len(), k);
        lemma_join_prefix(items, chunks, k);
        assert(chunks.take(k as int) =~= chunks);
        assert(items.take(items.len() as int) =~= items);
    }
}

proof fn lemma_join_prefix<T>(items: Seq<T>, chunks: Seq<Seq<T>>, j: nat)
    requires
        0 < chunks.len(),
        j <= chunks.len(),
        forall|i: int|
            0 <= i < chunks.len() ==> #[trigger] chunks[i] == items.subrange(
                chunk_start(items.len(), chunks.len(), i as nat) as int,
                chunk_start(items.len(), chunks.len(), (i + 1) as nat) as int,
            ),
    ensures
        chunks.take(j as int).flatten() == items.take(
            chunk_start(items.len(), chunks.len(), j) as int,
        ),
    decreases j,
{
    let n = items.len();
    let k = chunks.len();
    if j == 0 {
        lemma_chunk_ends(n, k);
        assert(chunks.take(0).flatten() =~= items.take(0));
    } else {
        let p = (j - 1) as nat;
        lemma_join_prefix(items, chunks, p);
        lemma_chunk_order(n, k, p, j);
        assert(chunks.take(j as int) =~= chunks.take(p as int).push(chunks[p as int]));
        chunks.take(p as int).lemma_flatten_push(chunks[p as int]);
        assert(items.take(chunk_start(n, k, j) as int) =~= items.take(
            chunk_start(n, k, p) as int,
        ) + items.subrange(chunk_start(n, k, p) as int, chunk_start(n, k, j) as int));
    }
}

/// Items are dealt over as many chunks as are asked for, but over no more than there are
/// items, and over at least one where there are any.
pub proof fn law_chunks_are_as_many_as_asked_for(n: nat, wanted: nat)
    ensures
        chunk_count(n, wanted) <= n,
        n > 0 ==> chunk_count(n, wanted) >= 1,
        1 <= wanted <= n ==> chunk_count(n, wanted) == wanted,
        wanted > n ==> chunk_count(n, wanted) == n,
        n > 0 ==> chunk_count(n, 0) == 1,
{
}

/// The exponent of the next power of two is the least that reaches `n`, and the power is
/// the least that does.
pub proof fn law_the_next_power_is_the_least(n: nat, k: nat)
    ensures
        n <= pow2(ceil_log2_spec(n)),
        n <= pow2(k) ==> ceil_log2_spec(n) <= k,
        next_pow2(n) == pow2(ceil_log2_spec(n)),
{
    lemma_ceil_log2_least(n, ceil_log2_spec(n));
    lemma_ceil_log2_least(n, k);
}

} // verus!
