//! Which workers are parked, one bit for each.
use crate::pool::sleep::THREADS_MAX;
use vstd::prelude::*;

verus! {

/// Workers per word.
pub const BITS_PER_WORD: usize = 64;

/// Words for the most workers a pool has.
pub const MASK_WORDS: usize = 1024;

/// A bit for every worker: set while the worker is parked.
///
/// Worker `i` has bit `i % 64` of word `i / 64`, so no two workers share one.
pub struct SleepMask {
    words: Vec<u64>,
    n_words: usize,
}

/// Whether bit `b` of `word` is set.
pub open spec fn bit_of(word: u64, b: u64) -> bool {
    (word >> b) & 1u64 == 1u64
}

/// Whether the bit of worker `i` is set.
pub open spec fn bit_at(words: Seq<u64>, i: int) -> bool {
    bit_of(words[i / 64], (i % 64) as u64)
}

proof fn lemma_bit_set(word: u64, b: u64, c: u64)
    requires
        b < 64,
        c < 64,
    ensures
        bit_of(word | (1u64 << b), c) == (b == c || bit_of(word, c)),
{
    assert(((word | (1u64 << b)) >> c) & 1u64 == 1u64 <==> (b == c || (word >> c) & 1u64 == 1u64))
        by (bit_vector)
        requires
            b < 64,
            c < 64,
    ;
}

proof fn lemma_bit_clear(word: u64, b: u64, c: u64)
    requires
        b < 64,
        c < 64,
    ensures
        bit_of(word & !(1u64 << b), c) == (b != c && bit_of(word, c)),
{
    assert(((word & !(1u64 << b)) >> c) & 1u64 == 1u64 <==> (b != c && (word >> c) & 1u64 == 1u64))
        by (bit_vector)
        requires
            b < 64,
            c < 64,
    ;
}

proof fn lemma_bits_from(word: u64, from: u64, c: u64)
    requires
        from < 64,
        c < 64,
    ensures
        bit_of((word >> from) << from, c) == (bit_of(word, c) && c >= from),
{
    assert((((word >> from) << from) >> c) & 1u64 == 1u64 <==> ((word >> c) & 1u64 == 1u64 && c
        >= from)) by (bit_vector)
        requires
            from < 64,
            c < 64,
    ;
}

proof fn lemma_no_bit(b: u64)
    requires
        b < 64,
    ensures
        !bit_of(0, b),
{
    assert((0u64 >> b) & 1u64 == 0u64) by (bit_vector);
}

/// The word of a worker and the bit within it.
pub fn split_index(worker_index: usize) -> (r: (usize, u64))
    ensures
        r.0 == worker_index / 64,
        r.1 == 1u64 << ((worker_index % 64) as u64),
{
    let word: usize = worker_index / BITS_PER_WORD;
    let shift: u64 = (worker_index % BITS_PER_WORD) as u64;
    (word, 1u64 << shift)
}

/// No two workers share a bit.
pub proof fn law_bits_are_distinct(i: usize, j: usize)
    requires
        i != j,
    ensures
        i / 64 != j / 64 || 1u64 << ((i % 64) as u64) != 1u64 << ((j % 64) as u64),
{
    let a = (i % 64) as u64;
    let b = (j % 64) as u64;
    if i / 64 == j / 64 {
        assert(a != b);
        assert(a < 64 && b < 64 && a != b ==> 1u64 << a != 1u64 << b) by (bit_vector);
    }
}

impl View for SleepMask {
    type V = Set<int>;

    /// The workers whose bits are set.
    closed spec fn view(&self) -> Set<int> {
        Set::new(|i: int| 0 <= i < self.words@.len() * 64 && bit_at(self.words@, i))
    }
}

/// The workers that are still marked after those of `asked` gave `answers`: all but
/// those that answered `false`.
pub open spec fn marked(before: Set<int>, asked: Seq<int>, answers: Seq<bool>) -> Set<int> {
    Set::new(
        |i: int|
            before.contains(i) && !(exists|j: int|
                0 <= j < asked.len() && #[trigger] asked[j] == i && !answers[j]),
    )
}

/// Where a scan goes on after those of `asked` gave `answers`: behind the last one, or
/// from the first worker on where that one answered `false`.
pub open spec fn resumes_at(asked: Seq<int>, answers: Seq<bool>) -> int {
    if asked.len() > 0 && answers.last() {
        asked.last() + 1
    } else {
        0
    }
}

/// Worker `i` is the one to be asked next.
pub open spec fn is_next(before: Set<int>, asked: Seq<int>, answers: Seq<bool>, i: int) -> bool {
    let left = marked(before, asked, answers);
    let from = resumes_at(asked, answers);
    &&& left.contains(i)
    &&& i >= from
    &&& forall|k: int| #[trigger] left.contains(k) && k >= from ==> i <= k
}

/// What one scan did: which workers it asked, what they answered, and which of them
/// woke up. It ends with the one that makes the target full, or where nobody is left to
/// be asked. Only the marks of those that answered `false` are gone.
pub open spec fn scanned(
    before: Set<int>,
    after: Set<int>,
    target: nat,
    asked: Seq<int>,
    answers: Seq<bool>,
    woken: Seq<usize>,
) -> bool {
    &&& asked.len() == answers.len()
    &&& forall|j: int|
        0 <= j < asked.len() ==> is_next(
            before,
            asked.take(j),
            answers.take(j),
            #[trigger] asked[j],
        )
    &&& after == marked(before, asked, answers)
    &&& woken == awake(asked, answers)
    &&& woken.len() <= target
    &&& asked.len() > 0 && woken.len() == target ==> answers.last()
    &&& woken.len() == target || (forall|i: int| #[trigger]
        after.contains(i) ==> i < resumes_at(asked, answers))
}

/// Where everybody who is asked wakes up, a scan asks the lowest workers, each once and
/// lowest first, as many as the target or all there are, and leaves the marks alone.
pub proof fn law_scan_of_sleepers(
    before: Set<int>,
    after: Set<int>,
    target: nat,
    asked: Seq<int>,
    answers: Seq<bool>,
    woken: Seq<usize>,
)
    requires
        scanned(before, after, target, asked, answers, woken),
        forall|i: int| #[trigger] before.contains(i) ==> 0 <= i <= usize::MAX,
        forall|j: int| 0 <= j < answers.len() ==> #[trigger] answers[j],
    ensures
        after == before,
        woken.len() == asked.len(),
        forall|j: int| 0 <= j < asked.len() ==> #[trigger] woken[j] == asked[j],
        forall|j: int, k: int| 0 <= j < k < asked.len() ==> asked[j] < asked[k],
        forall|j: int| 0 <= j < asked.len() ==> #[trigger] before.contains(asked[j]),
        forall|i: int, j: int| #[trigger]
            before.contains(i) && !asked.contains(i) && 0 <= j < asked.len() ==> #[trigger] asked[j]
                < i,
        woken.len() == target || (forall|i: int| #[trigger] before.contains(i)
            ==> asked.contains(i)),
{
    assert(after =~= before);
    lemma_all_awake(asked, answers);
    assert forall|j: int, k: int| 0 <= j < k < asked.len() implies asked[j] < asked[k] by {
        lemma_ascending(before, asked, answers, j, k);
    }
    assert forall|j: int| 0 <= j < asked.len() implies #[trigger] before.contains(asked[j]) by {
        assert(is_next(before, asked.take(j), answers.take(j), asked[j]));
    }
    assert forall|j: int| 0 <= j < asked.len() implies #[trigger] woken[j] == asked[j] by {
        assert(before.contains(asked[j]));
    }
    assert forall|i: int, j: int| #[trigger]
        before.contains(i) && !asked.contains(i) && 0 <= j < asked.len() implies #[trigger] asked[j]
        < i by {
        lemma_lowest_first(before, asked, answers, j, i);
    }
    if woken.len() != target {
        assert forall|i: int| #[trigger] before.contains(i) implies asked.contains(i) by {
            assert(after.contains(i));
            if !asked.contains(i) {
                let last = asked.len() - 1;
                assert(asked[last] < i);
            }
        }
    }
}

proof fn lemma_all_awake(asked: Seq<int>, answers: Seq<bool>)
    requires
        asked.len() == answers.len(),
        forall|j: int| 0 <= j < answers.len() ==> #[trigger] answers[j],
    ensures
        awake(asked, answers) == Seq::new(asked.len(), |j: int| asked[j] as usize),
    decreases asked.len(),
{
    if asked.len() > 0 {
        lemma_all_awake(asked.drop_last(), answers.drop_last());
    }
    assert(awake(asked, answers) =~= Seq::new(asked.len(), |j: int| asked[j] as usize));
}

proof fn lemma_ascending(before: Set<int>, asked: Seq<int>, answers: Seq<bool>, j: int, k: int)
    requires
        asked.len() == answers.len(),
        forall|j: int|
            0 <= j < asked.len() ==> is_next(
                before,
                asked.take(j),
                answers.take(j),
                #[trigger] asked[j],
            ),
        forall|j: int| 0 <= j < answers.len() ==> #[trigger] answers[j],
        0 <= j < k < asked.len(),
    ensures
        asked[j] < asked[k],
    decreases k,
{
    assert(is_next(before, asked.take(k), answers.take(k), asked[k]));
    assert(answers.take(k).last() == answers[k - 1]);
    assert(asked.take(k).last() == asked[k - 1]);
    if j < k - 1 {
        lemma_ascending(before, asked, answers, j, k - 1);
    }
}

proof fn lemma_lowest_first(before: Set<int>, asked: Seq<int>, answers: Seq<bool>, j: int, i: int)
    requires
        asked.len() == answers.len(),
        forall|j: int|
            0 <= j < asked.len() ==> is_next(
                before,
                asked.take(j),
                answers.take(j),
                #[trigger] asked[j],
            ),
        forall|j: int| 0 <= j < answers.len() ==> #[trigger] answers[j],
        forall|i: int| #[trigger] before.contains(i) ==> 0 <= i <= usize::MAX,
        0 <= j < asked.len(),
        before.contains(i),
        !asked.contains(i),
    ensures
        asked[j] < i,
    decreases j,
{
    assert(is_next(before, asked.take(j), answers.take(j), asked[j]));
    assert(marked(before, asked.take(j), answers.take(j)).contains(i)) by {
        assert forall|k: int| 0 <= k < asked.take(j).len() implies answers.take(j)[k] by {
            assert(answers[k]);
        }
    }
    if j > 0 {
        lemma_lowest_first(before, asked, answers, j - 1, i);
        assert(asked.take(j).last() == asked[j - 1]);
        assert(answers.take(j).last() == answers[j - 1]);
    }
    assert(asked[j] != i);
}

/// The workers that answered that they woke up, in the order they were asked.
pub open spec fn awake(asked: Seq<int>, answers: Seq<bool>) -> Seq<usize>
    decreases asked.len(),
{
    if asked.len() == 0 {
        Seq::empty()
    } else if answers.last() {
        awake(asked.drop_last(), answers.drop_last()).push(asked.last() as usize)
    } else {
        awake(asked.drop_last(), answers.drop_last())
    }
}

impl SleepMask {
    /// One past the largest worker that has a bit.
    pub closed spec fn limit(&self) -> nat {
        (self.n_words * 64) as nat
    }

    /// The words beyond those in use are empty.
    pub closed spec fn wf(&self) -> bool {
        &&& self.words@.len() == MASK_WORDS
        &&& self.n_words <= MASK_WORDS
        &&& forall|w: int| self.n_words <= w < MASK_WORDS ==> #[trigger] self.words@[w] == 0
    }

    /// A mask for `n_threads` workers, none of them parked.
    pub fn new(n_threads: usize) -> (r: Self)
        requires
            n_threads <= THREADS_MAX,
        ensures
            r.wf(),
            r.limit() == (n_threads + 63) / 64 * 64,
            n_threads <= r.limit(),
            r@ == Set::<int>::empty(),
    {
        let mut words: Vec<u64> = Vec::with_capacity(MASK_WORDS);
        for i in 0..MASK_WORDS
            invariant
                words@.len() == i,
                forall|w: int| 0 <= w < i ==> #[trigger] words@[w] == 0,
        {
            words.push(0);
        }
        let r = SleepMask { words, n_words: (n_threads + (BITS_PER_WORD - 1)) / BITS_PER_WORD };
        proof {
            assert forall|i: int| 0 <= i < 65536 implies !bit_at(r.words@, i) by {
                lemma_no_bit((i % 64) as u64);
            }
            assert(r@ =~= Set::<int>::empty());
        }
        r
    }

    /// The bits of word `w`.
    pub fn word(&self, w: usize) -> (r: u64)
        requires
            self.wf(),
            w < MASK_WORDS,
        ensures
            forall|b: u64| b < 64 ==> #[trigger] bit_of(r, b) == self@.contains(w * 64 + b),
    {
        proof {
            assert forall|b: u64| b < 64 implies #[trigger] bit_of(self.words@[w as int], b)
                == self@.contains(w * 64 + b) by {
                let i = w * 64 + b;
                assert(i / 64 == w && i % 64 == b);
            }
        }
        self.words[w]
    }

    /// Marks a worker as parked.
    pub fn set(&mut self, worker_index: usize)
        requires
            old(self).wf(),
            worker_index < old(self).limit(),
        ensures
            final(self).wf(),
            final(self).limit() == old(self).limit(),
            final(self)@ == old(self)@.insert(worker_index as int),
    {
        let (word, bit) = split_index(worker_index);
        self.words[word] = self.words[word] | bit;
        proof {
            let b = (worker_index % 64) as u64;
            assert forall|i: int| 0 <= i < 65536 implies bit_at(self.words@, i) == (i == worker_index
                || bit_at(old(self).words@, i)) by {
                if i / 64 == word {
                    lemma_bit_set(old(self).words@[word as int], b, (i % 64) as u64);
                }
            }
            assert(self@ =~= old(self)@.insert(worker_index as int));
        }
    }

    /// Marks a worker as awake.
    pub fn clear(&mut self, worker_index: usize)
        requires
            old(self).wf(),
            worker_index < old(self).limit(),
        ensures
            final(self).wf(),
            final(self).limit() == old(self).limit(),
            final(self)@ == old(self)@.remove(worker_index as int),
    {
        let (word, bit) = split_index(worker_index);
        self.words[word] = self.words[word] & !bit;
        proof {
            let b = (worker_index % 64) as u64;
            assert forall|i: int| 0 <= i < 65536 implies bit_at(self.words@, i) == (i != worker_index
                && bit_at(old(self).words@, i)) by {
                if i / 64 == word {
                    lemma_bit_clear(old(self).words@[word as int], b, (i % 64) as u64);
                }
            }
            assert(self@ =~= old(self)@.remove(worker_index as int));
        }
    }

    /// The parked worker with the lowest index.
    pub fn lowest(&self) -> (r: Option<usize>)
        requires
            self.wf(),
        ensures
            match r {
                Some(i) => {
                    &&& i < self.limit()
                    &&& self@.contains(i as int)
                    &&& forall|j: int| #[trigger] self@.contains(j) ==> i <= j
                },
                None => self@ == Set::<int>::empty(),
            },
    {
        let r = self.lowest_from(0);
        proof {
            if r is None {
                assert(self@ =~= Set::<int>::empty());
            }
        }
        r
    }

    /// The parked worker with the lowest index from `from` on.
    pub fn lowest_from(&self, from: usize) -> (r: Option<usize>)
        requires
            self.wf(),
        ensures
            match r {
                Some(i) => {
                    &&& from <= i < self.limit()
                    &&& self@.contains(i as int)
                    &&& forall|j: int| #[trigger] self@.contains(j) && j >= from ==> i <= j
                },
                None => forall|j: int| #[trigger] self@.contains(j) ==> j < from,
            },
            forall|j: int| #[trigger] self@.contains(j) ==> 0 <= j < self.limit(),
    {
        proof {
            assert forall|j: int| #[trigger] self@.contains(j) implies 0 <= j < self.limit() by {
                if j >= self.limit() {
                    assert(self.words@[j / 64] == 0);
                    lemma_no_bit((j % 64) as u64);
                }
            }
        }
        for w in 0..self.n_words
            invariant
                self.wf(),
                forall|j: int| #[trigger] self@.contains(j) ==> 0 <= j < self.limit(),
                forall|j: int| #[trigger] self@.contains(j) && j >= from ==> j >= w * 64,
        {
            let base: usize = w * BITS_PER_WORD;
            let bits: u64 = if from <= base {
                self.words[w]
            } else if from - base >= BITS_PER_WORD {
                0
            } else {
                let skipped: u64 = (from - base) as u64;
                (self.words[w] >> skipped) << skipped
            };
            proof {
                let whole = self.words@[w as int];
                assert forall|c: u64| c < 64 implies #[trigger] bit_of(bits, c) == (bit_of(whole, c)
                    && base + c >= from) by {
                    if from > base && from - base < 64 {
                        lemma_bits_from(whole, (from - base) as u64, c);
                    } else if from > base {
                        lemma_no_bit(c);
                    }
                }
            }
            if bits != 0 {
                let pos: u32 = bits.trailing_zeros();
                let i: usize = base + pos as usize;
                proof {
                    assert(i as int / 64 == w && i as int % 64 == pos);
                    assert(bit_of(bits, pos as u64));
                    assert forall|j: int| #[trigger] self@.contains(j) && j >= from implies i <= j by {
                        if j < i {
                            assert(j / 64 == w);
                            let c = (j % 64) as u64;
                            assert((bits >> c) & 1u64 == 0u64);
                            assert(!bit_of(bits, c));
                        }
                    }
                }
                return Some(i);
            }
            proof {
                assert forall|j: int| #[trigger] self@.contains(j) && j >= from implies j >= (w + 1)
                    * 64 by {
                    if j < (w + 1) * 64 {
                        assert(j / 64 == w);
                        lemma_no_bit((j % 64) as u64);
                        assert(!bit_of(bits, (j % 64) as u64));
                    }
                }
            }
        }
        None
    }

    /// Asks the parked workers, lowest first, with `wake_fn` until `target` of them woke
    /// up or none is left, and returns those that did.
    ///
    /// An answer of `false` means that the worker was awake already. Its mark is stale
    /// and is cleared, and the scan starts over, as others may have been marked since.
    pub fn scan_woken<F>(&mut self, target: u32, wake_fn: F) -> (woken: Vec<usize>) where
        F: Fn(usize) -> bool,

        requires
            old(self).wf(),
            forall|i: usize| i < old(self).limit() ==> #[trigger] wake_fn.requires((i,)),
        ensures
            final(self).wf(),
            final(self).limit() == old(self).limit(),
            exists|asked: Seq<int>, answers: Seq<bool>|
                #![trigger scanned(old(self)@, final(self)@, target as nat, asked, answers, woken@)]
                scanned(old(self)@, final(self)@, target as nat, asked, answers, woken@) && answered(
                    wake_fn,
                    asked,
                    answers,
                ),
    {
        let ghost before = self@;
        let ghost mut asked: Seq<int> = Seq::empty();
        let ghost mut answers: Seq<bool> = Seq::empty();
        let mut woken: Vec<usize> = Vec::new();
        let mut from: usize = 0;
        let goal: usize = target as usize;
        assert(self@ =~= marked(before, asked, answers));
        while woken.len() < goal
            invariant
                self.wf(),
                self.limit() == old(self).limit(),
                before == old(self)@,
                goal == target,
                forall|i: usize| i < self.limit() ==> #[trigger] wake_fn.requires((i,)),
                asked.len() == answers.len(),
                answered(wake_fn, asked, answers),
                forall|j: int|
                    0 <= j < asked.len() ==> is_next(
                        before,
                        asked.take(j),
                        answers.take(j),
                        #[trigger] asked[j],
                    ),
                self@ == marked(before, asked, answers),
                from == resumes_at(asked, answers),
                woken@ == awake(asked, answers),
                woken@.len() <= goal,
                asked.len() > 0 && woken@.len() == goal ==> answers.last(),
            decreases self@.len(), goal - woken.len(),
        {
            match self.lowest_from(from) {
                None => {
                    assert(scanned(before, self@, target as nat, asked, answers, woken@));
                    return woken;
                },
                Some(i) => {
                    let up = wake_fn(i);
                    let ghost prev = (asked, answers);
                    let ghost held = self@;
                    proof {
                        self.lemma_finite();
                        asked = asked.push(i as int);
                        answers = answers.push(up);
                        assert(asked.drop_last() =~= prev.0);
                        assert(answers.drop_last() =~= prev.1);
                        assert forall|j: int| 0 <= j < asked.len() implies is_next(
                            before,
                            asked.take(j),
                            answers.take(j),
                            #[trigger] asked[j],
                        ) by {
                            assert(asked.take(j) =~= prev.0.take(j));
                            assert(answers.take(j) =~= prev.1.take(j));
                            if j == prev.0.len() {
                                assert(prev.0.take(j) =~= prev.0);
                                assert(prev.1.take(j) =~= prev.1);
                            } else {
                                assert(prev.0[j] == asked[j]);
                            }
                        }
                        lemma_marked_push(before, prev.0, prev.1, i as int, up);
                    }
                    if up {
                        woken.push(i);
                        from = i + 1;
                    } else {
                        self.clear(i);
                        from = 0;
                    }
                },
            }
        }
        assert(scanned(before, self@, target as nat, asked, answers, woken@));
        woken
    }

    /// Only so many workers have a mark.
    proof fn lemma_finite(&self)
        requires
            self.wf(),
        ensures
            self@.finite(),
    {
        vstd::set_lib::lemma_int_range(0, 65536);
        assert(self@.subset_of(vstd::set_lib::set_int_range(0, 65536)));
        vstd::set_lib::lemma_set_subset_finite(vstd::set_lib::set_int_range(0, 65536), self@);
    }

    /// Asks the parked workers, lowest first, with `wake_fn` until `target` of
    /// them woke up or none is left, and returns how many did.
    pub fn wake_scan<F>(&mut self, target: u32, wake_fn: F) -> (woken: u32) where
        F: Fn(usize) -> bool,

        requires
            old(self).wf(),
            forall|i: usize| i < old(self).limit() ==> #[trigger] wake_fn.requires((i,)),
        ensures
            final(self).wf(),
            final(self).limit() == old(self).limit(),
            exists|asked: Seq<int>, answers: Seq<bool>, who: Seq<usize>|
                #![trigger scanned(old(self)@, final(self)@, target as nat, asked, answers, who)]
                scanned(old(self)@, final(self)@, target as nat, asked, answers, who) && answered(
                    wake_fn,
                    asked,
                    answers,
                ) && woken == who.len(),
    {
        let who = self.scan_woken(target, wake_fn);
        assert(who@.len() <= target);
        who.len() as u32
    }
}

/// One more answer takes at most the mark of the worker that gave it.
proof fn lemma_marked_push(before: Set<int>, asked: Seq<int>, answers: Seq<bool>, i: int, up: bool)
    requires
        asked.len() == answers.len(),
    ensures
        marked(before, asked.push(i), answers.push(up)) == (if up {
            marked(before, asked, answers)
        } else {
            marked(before, asked, answers).remove(i)
        }),
{
    let more = asked.push(i);
    let given = answers.push(up);
    let now = marked(before, more, given);
    let was = marked(before, asked, answers);
    assert forall|k: int| now.contains(k) <==> was.contains(k) && (up || k != i) by {
        if was.contains(k) && (up || k != i) {
            assert forall|j: int| 0 <= j < more.len() && #[trigger] more[j] == k implies given[j] by {
                if j < asked.len() {
                    assert(asked[j] == k);
                }
            }
        }
        if now.contains(k) {
            assert forall|j: int| 0 <= j < asked.len() && #[trigger] asked[j] == k implies answers[j] by {
                assert(more[j] == k);
            }
            if !up && k == i {
                assert(more[asked.len() as int] == k);
            }
        }
    }
    assert(now =~= (if up {
        was
    } else {
        was.remove(i)
    }));
}

/// `answers` are what `wake_fn` returned for the workers of `asked`.
pub open spec fn answered<F: Fn(usize) -> bool>(
    wake_fn: F,
    asked: Seq<int>,
    answers: Seq<bool>,
) -> bool {
    forall|j: int|
        0 <= j < asked.len() ==> wake_fn.ensures((asked[j] as usize,), #[trigger] answers[j])
}

/// A scan takes away the marks of those that answered `false` and of nobody else, and wakes
/// those that answered `true`, up to the target; short of it, it ends where nobody is left
/// from where it would go on.
pub proof fn law_a_scan_takes_stale_marks_away(
    before: Set<int>,
    after: Set<int>,
    target: nat,
    asked: Seq<int>,
    answers: Seq<bool>,
    woken: Seq<usize>,
    i: int,
)
    requires
        scanned(before, after, target, asked, answers, woken),
        forall|k: int| #[trigger] before.contains(k) ==> 0 <= k,
    ensures
        after.contains(i) ==> before.contains(i),
        before.contains(i) && !after.contains(i) <==> before.contains(i) && exists|j: int|
            0 <= j < asked.len() && #[trigger] asked[j] == i && !answers[j],
        0 <= i < asked.len() ==> before.contains(asked[i]),
        woken.len() <= target,
        woken.len() < target && after.contains(i) ==> asked.len() > 0 && answers.last() && i
            <= asked.last(),
{
    if 0 <= i < asked.len() {
        assert(is_next(before, asked.take(i), answers.take(i), asked[i]));
    }
}

/// Whoever answers `true` is woken, behind those that did so before; whoever answers
/// `false` is not.
pub proof fn law_those_who_answer_are_woken(asked: Seq<int>, answers: Seq<bool>, i: int, up: bool)
    requires
        asked.len() == answers.len(),
    ensures
        awake(Seq::empty(), Seq::empty()) == Seq::<usize>::empty(),
        awake(asked.push(i), answers.push(up)) == if up {
            awake(asked, answers).push(i as usize)
        } else {
            awake(asked, answers)
        },
{
    assert(asked.push(i).drop_last() =~= asked);
    assert(answers.push(up).drop_last() =~= answers);
}

/// A word with one bit set has that bit and no other, and one with no bit set has none.
pub proof fn law_a_word_has_the_bits_that_are_set(b: u64, c: u64)
    requires
        b < 64,
        c < 64,
    ensures
        bit_of(1u64 << b, c) <==> b == c,
        !bit_of(0, c),
{
    lemma_no_bit(c);
    lemma_bit_set(0, b, c);
    assert(0u64 | (1u64 << b) == 1u64 << b) by (bit_vector);
}

} // verus!
