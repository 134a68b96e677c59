use vstd::prelude::*;
use vstd::multiset::Multiset;
use vstd::arithmetic::div_mod::{
    lemma_fundamental_div_mod,
    lemma_mod_add_multiples_vanish,
    lemma_small_mod,
};
use crate::primes::{
    is_prime,
    prime_count,
    is_nth_prime,
    lemma_small_primes,
    lemma_not_prime_even_or_five,
    lemma_composite_factor,
    lemma_same_residue_gap,
};
use crate::prio_queue::{PriorityQueue, StorageFault, is_least};
use crate::sqlite_dao::SqlitePrioQueueDao;
use crate::storage_backed_queue::{
    StorageBackedI64PriorityQueue,
    DEFAULT_OFFLOAD_TO_STORAGE_THRESHOLD,
    DEFAULT_LOAD_FROM_STORAGE_THRESHOLD,
};

verus! {

/// The sieve examines no candidate at or above this bound, so that every marker it
/// keeps fits in an `i64`.
pub const CANDIDATE_LIMIT: i64 = 1152921504606846976;

/// The step that the wheel takes from position `i`.
pub open spec fn wheel_step(i: int) -> int {
    if i == 1 {
        4
    } else {
        2
    }
}

/// The last digit of the candidate from which the wheel takes step `i`.
pub open spec fn wheel_residue(i: int) -> int {
    if i == 0 {
        1
    } else if i == 1 {
        3
    } else if i == 2 {
        7
    } else {
        9
    }
}

/// The primes emitted before the wheel starts.
pub open spec fn bootstrap_prime(i: int) -> int {
    if i == 0 {
        2
    } else if i == 1 {
        3
    } else if i == 2 {
        5
    } else if i == 3 {
        7
    } else {
        11
    }
}

/// The last candidate after `n` bootstrap primes.
pub open spec fn bootstrap_last(n: int) -> int {
    if n == 0 {
        0
    } else {
        bootstrap_prime(n - 1)
    }
}

/// `e` is a marker `(k, p)`: `p` is an odd prime other than five, no larger than
/// `last`, and `k` is an odd multiple of `p` that lies at most one step of `2 * p`
/// above `last`.
pub open spec fn valid_marker(e: (i64, i64), last: int) -> bool {
    let k = e.0 as int;
    let p = e.1 as int;
    &&& is_prime(p)
    &&& 3 <= p
    &&& p != 5
    &&& p <= last
    &&& k % (2 * p) == p
    &&& k - 2 * p <= last
}

pub open spec fn markers_valid(m: Multiset<(i64, i64)>, last: int) -> bool {
    forall|e: (i64, i64)| #[trigger] m.count(e) > 0 ==> valid_marker(e, last)
}

/// Every odd prime other than five, up to `last`, has a marker in `m`.
pub open spec fn markers_cover(m: Multiset<(i64, i64)>, last: int) -> bool {
    forall|p: int|
        #![trigger is_prime(p)]
        is_prime(p) && 3 <= p <= last && p != 5 ==> exists|k: i64| #[trigger] m.count((k, p as i64)) > 0
}

/// The number of pairs in `m` whose priority is `x`.
pub open spec fn count_at(m: Multiset<(i64, i64)>, x: int) -> nat {
    m.filter(|e: (i64, i64)| e.0 == x).len()
}

proof fn lemma_count_at_replace(m: Multiset<(i64, i64)>, x: (i64, i64), y: (i64, i64))
    requires
        m.count(x) > 0,
        y.0 != x.0,
    ensures
        count_at(m.remove(x).insert(y), x.0 as int) + 1 == count_at(m, x.0 as int),
{
    let f = |e: (i64, i64)| e.0 == x.0 as int;
    let m2 = m.remove(x).insert(y);
    assert(m.filter(f) =~= m2.filter(f).insert(x));
}

proof fn lemma_odd_multiple(k: int, p: int)
    requires
        p > 0,
        k % (2 * p) == p,
    ensures
        k % p == 0,
        (k + 2 * p) % (2 * p) == p,
{
    lemma_fundamental_div_mod(k, 2 * p);
    let q = k / (2 * p);
    assert(k == p * (2 * q + 1)) by (nonlinear_arith)
        requires
            k == (2 * p) * q + p,
    ;
    vstd::arithmetic::div_mod::lemma_mod_multiples_basic(2 * q + 1, p);
    lemma_mod_add_multiples_vanish(k, 2 * p);
}

proof fn lemma_triple(c: int)
    requires
        c > 0,
    ensures
        (3 * c) % (2 * c) == c,
{
    lemma_small_mod(c as nat, (2 * c) as nat);
    lemma_mod_add_multiples_vanish(c, 2 * c);
}

/// What the wheel does from a candidate `last` at position `s`.
proof fn lemma_wheel(last: int, s: int)
    requires
        last >= 11,
        0 <= s < 4,
        last % 10 == wheel_residue(s),
    ensures
        (last + wheel_step(s)) % 10 == wheel_residue((s + 1) % 4),
        (last + wheel_step(s)) % 2 == 1,
        (last + wheel_step(s)) % 5 != 0,
        prime_count(last + wheel_step(s) - 1) == prime_count(last),
        forall|n: int| last < n < last + wheel_step(s) ==> !is_prime(n),
{
    lemma_not_prime_even_or_five(last + 1);
    assert(prime_count(last + 1) == prime_count(last));
    if s == 1 {
        lemma_not_prime_even_or_five(last + 2);
        lemma_not_prime_even_or_five(last + 3);
        assert(prime_count(last + 2) == prime_count(last + 1));
        assert(prime_count(last + 3) == prime_count(last + 2));
    }
}

fn step_size(index: usize) -> (r: i64)
    requires
        index < 4,
    ensures
        r == wheel_step(index as int),
{
    if index == 1 {
        4
    } else {
        2
    }
}

fn predefined_prime(index: usize) -> (r: i64)
    requires
        index < 5,
    ensures
        r == bootstrap_prime(index as int),
{
    match index {
        0 => 2,
        1 => 3,
        2 => 5,
        3 => 7,
        _ => 11,
    }
}

/// `is_active` answered true for `k`, and `on_prime` has been handed `k` and the
/// `k`-th prime.
pub open spec fn handed_over<FCancelled, FOnPrime>(
    is_active: FCancelled,
    on_prime: FOnPrime,
    k: usize,
) -> bool where
    FCancelled: FnMut(usize) -> bool,
    FOnPrime: FnMut(usize, i64),
 {
    &&& is_active.ensures((k,), true)
    &&& exists|p: i64| is_nth_prime(k as int, p as int) && on_prime.ensures((k, p), ())
}

/// An incremental prime sieve. Each odd prime `p` other than five that it has met is
/// kept in a priority queue as a marker `(k, p)`, where `k` is the next odd multiple of
/// `p` still to be struck out; the candidates come from a wheel that skips the
/// multiples of two and five.
pub struct Primer<Q: PriorityQueue> {
    false_candidates: Q,
    last_candidate: i64,
    step_index: usize,
    prime_index: usize,
}

impl Primer<StorageBackedI64PriorityQueue<SqlitePrioQueueDao>> {
    /// A sieve that has emitted nothing yet, over a tiered queue with the default
    /// thresholds whose cold tier is an SQLite database in memory.
    pub fn new() -> (r: Result<Self, StorageFault>)
        ensures
            r is Ok ==> {
                let p = r->Ok_0;
                &&& p.wf()
                &&& p.primes_emitted() == 0
                &&& p.last_examined() == 0
                &&& p.queue().items().len() == 0
                &&& p.queue().high() == DEFAULT_OFFLOAD_TO_STORAGE_THRESHOLD
                &&& p.queue().low() == DEFAULT_LOAD_FROM_STORAGE_THRESHOLD
            },
    {
        let dao = match SqlitePrioQueueDao::new(":memory:") {
            Ok(d) => d,
            Err(e) => {
                return Err(StorageFault { cause: e });
            },
        };
        let queue = StorageBackedI64PriorityQueue::new(dao)?;
        Ok(Self::new_with_priority_queue(queue))
    }
}

impl<Q: PriorityQueue> Primer<Q> {
    pub closed spec fn wf(&self) -> bool {
        let last = self.last_candidate as int;
        let q = self.false_candidates.items();
        &&& self.false_candidates.wf()
        &&& 0 <= last < CANDIDATE_LIMIT
        &&& self.step_index < 4
        &&& self.prime_index as int == prime_count(last)
        &&& q.len() <= self.prime_index
        &&& markers_valid(q, last)
        &&& markers_cover(q, last)
        &&& if self.prime_index < 5 {
            last == bootstrap_last(self.prime_index as int) && self.step_index == 0
        } else {
            last >= 11 && last % 10 == wheel_residue(self.step_index as int)
        }
    }

    /// The queue of markers.
    pub closed spec fn queue(&self) -> Q {
        self.false_candidates
    }

    /// How many primes have been emitted so far.
    pub closed spec fn primes_emitted(&self) -> nat {
        self.prime_index as nat
    }

    /// The largest number examined so far (zero before the first prime).
    pub closed spec fn last_examined(&self) -> int {
        self.last_candidate as int
    }

    /// A sieve that has emitted nothing yet, keeping its markers in `priority_queue`.
    pub fn new_with_priority_queue(priority_queue: Q) -> (r: Self)
        requires
            priority_queue.wf(),
            priority_queue.items().len() == 0,
        ensures
            r.wf(),
            r.primes_emitted() == 0,
            r.last_examined() == 0,
            r.queue() == priority_queue,
    {
        proof {
            lemma_small_primes();
        }
        Primer { false_candidates: priority_queue, last_candidate: 0, step_index: 0, prime_index: 0 }
    }

    /// Examines the next candidate: a bootstrap prime, or the next number of the wheel.
    /// Returns the index and value of the prime found, if the candidate is one.
    /// The candidate examined is the next one after `last_examined()`, and every
    /// number skipped on the way is not prime, so that the primes come out one by one
    /// with no prime missed.
    pub fn advance(&mut self) -> (r: Result<Option<(usize, i64)>, StorageFault>)
        requires
            old(self).wf(),
            old(self).last_examined() + 4 < CANDIDATE_LIMIT,
            old(self).primes_emitted() < usize::MAX,
        ensures
            r is Ok ==> {
                &&& final(self).wf()
                &&& old(self).last_examined() < final(self).last_examined()
                &&& final(self).primes_emitted() == prime_count(final(self).last_examined())
                &&& match r->Ok_0 {
                    Some((i, p)) => {
                        &&& i == old(self).primes_emitted()
                        &&& p == final(self).last_examined()
                        &&& is_nth_prime(i as int, p as int)
                        &&& final(self).primes_emitted() == old(self).primes_emitted() + 1
                    },
                    None => {
                        &&& final(self).primes_emitted() == old(self).primes_emitted()
                        &&& !is_prime(final(self).last_examined())
                    },
                }
            },
    {
        proof {
            lemma_small_primes();
        }
        if self.prime_index < 5 {
            let prime = predefined_prime(self.prime_index);
            let ghost q0 = self.false_candidates.items();
            self.last_candidate = prime;
            if prime != 2 && prime != 5 {
                let marker: (i64, i64) = (prime * 3, prime);
                self.false_candidates.insert(marker)?;
                proof {
                    lemma_triple(prime as int);
                    let q = self.false_candidates.items();
                    assert(q.count(marker) > 0);
                    assert forall|p: int|
                        #![trigger is_prime(p)]
                        is_prime(p) && 3 <= p <= prime && p != 5 implies exists|k: i64|
                            #[trigger] q.count((k, p as i64)) > 0 by {
                        if p == prime {
                            assert(q.count(marker) > 0);
                        } else {
                            let k = choose|k: i64| #[trigger] q0.count((k, p as i64)) > 0;
                            assert(q.count((k, p as i64)) > 0);
                        }
                    }
                }
            }
            let i = self.prime_index;
            self.prime_index = self.prime_index + 1;
            return Ok(Some((i, prime)));
        }
        let ghost last0 = self.last_candidate as int;
        let ghost s0 = self.step_index as int;
        let ghost index0 = self.prime_index;
        let candidate = self.last_candidate + step_size(self.step_index);
        self.step_index = (self.step_index + 1) % 4;
        self.last_candidate = candidate;
        proof {
            lemma_wheel(last0, s0);
        }
        let ghost c = candidate as int;
        // A prime factor of the candidate, when it is composite.
        let ghost factor: int = if !is_prime(c) {
            lemma_composite_factor(c)
        } else {
            0
        };
        proof {
            if !is_prime(c) {
                let q = self.false_candidates.items();
                assert(is_prime(factor) && 3 <= factor <= last0);
                let k = choose|k: i64| #[trigger] q.count((k, factor as i64)) > 0;
                assert(valid_marker((k, factor as i64), last0));
                if k > c {
                    lemma_same_residue_gap(c, k as int, 2 * factor);
                }
            }
            assert(self.false_candidates.items().len() > 0) by {
                let q = self.false_candidates.items();
                let k = choose|k: i64| #[trigger] q.count((k, 3i64)) > 0;
                assert(q.count((k, 3i64)) > 0);
            }
        }
        let mut candidate_can_be_prime = true;
        let first = self.false_candidates.peek()?;
        let mut lowest = match first {
            Some(item) => item.0,
            None => {
                return Ok(None);
            },
        };
        while candidate >= lowest
            invariant
                self.false_candidates.wf(),
                c == candidate,
                self.last_candidate == candidate,
                self.step_index as int == (s0 + 1) % 4,
                self.prime_index == index0,
                last0 < c <= last0 + 4,
                last0 + 4 < CANDIDATE_LIMIT,
                c % 2 == 1,
                self.false_candidates.items().len() <= self.prime_index,
                self.prime_index < usize::MAX,
                forall|e: (i64, i64)|
                    #[trigger] self.false_candidates.items().count(e) > 0 ==> {
                        let k = e.0 as int;
                        let p = e.1 as int;
                        &&& is_prime(p)
                        &&& 3 <= p
                        &&& p != 5
                        &&& p <= last0
                        &&& k % (2 * p) == p
                        &&& k - 2 * p <= c
                    },
                markers_cover(self.false_candidates.items(), last0),
                self.false_candidates.items().len() > 0,
                exists|e: (i64, i64)|
                    is_least(self.false_candidates.items(), e) && e.0 == lowest,
                !candidate_can_be_prime ==> !is_prime(c),
                !is_prime(c) ==> !candidate_can_be_prime || exists|k: i64|
                    #[trigger] self.false_candidates.items().count((k, factor as i64)) > 0 && k
                        <= c,
                !is_prime(c) ==> c % (2 * factor) == factor && 3 <= factor <= last0,
            decreases
                if lowest <= candidate {
                    candidate + 1 - lowest
                } else {
                    0
                },
                count_at(self.false_candidates.items(), lowest as int),
        {
            if candidate == lowest {
                candidate_can_be_prime = false;
            }
            let ghost q0 = self.false_candidates.items();
            let ghost lowest0 = lowest;
            let polled = self.false_candidates.poll()?;
            let (key, prime) = match polled {
                Some(item) => item,
                None => {
                    return Ok(None);
                },
            };
            proof {
                assert(q0.count((key, prime)) > 0);
                assert(key == lowest0);
                lemma_odd_multiple(key as int, prime as int);
                if key as int == c {
                    assert(c % (prime as int) == 0);
                }
            }
            let advanced: (i64, i64) = (key + prime * 2, prime);
            self.false_candidates.insert(advanced)?;
            let ghost q1 = self.false_candidates.items();
            proof {
                assert forall|p: int|
                    #![trigger is_prime(p)]
                    is_prime(p) && 3 <= p <= last0 && p != 5 implies exists|k: i64|
                        #[trigger] q1.count((k, p as i64)) > 0 by {
                    let k = choose|k: i64| #[trigger] q0.count((k, p as i64)) > 0;
                    if (k, p as i64) == (key, prime) {
                        assert(q1.count(advanced) > 0);
                    } else {
                        assert(q1.count((k, p as i64)) > 0);
                    }
                }
                if !is_prime(c) && candidate_can_be_prime {
                    let k = choose|k: i64| #[trigger] q0.count((k, factor as i64)) > 0 && k <= c;
                    if (k, factor as i64) == (key, prime) {
                        assert(key as int != c);
                        assert(prime as int == factor);
                        assert((key as int) % (2 * factor) == factor);
                        lemma_same_residue_gap(key as int, c, 2 * factor);
                        assert(q1.count(advanced) > 0);
                    } else {
                        assert(q1.count((k, factor as i64)) > 0);
                    }
                }
                assert(q1.count(advanced) > 0);
            }
            let next = self.false_candidates.peek()?;
            lowest = match next {
                Some(item) => item.0,
                None => {
                    return Ok(None);
                },
            };
            proof {
                let q = self.false_candidates.items();
                assert(q == q0.remove((key, prime)).insert(advanced));
                assert(lowest0 <= lowest) by {
                    let e = choose|e: (i64, i64)| is_least(q, e) && e.0 == lowest;
                    if e != advanced {
                        assert(q0.count(e) > 0);
                    }
                }
                if lowest == lowest0 {
                    lemma_count_at_replace(q0, (key, prime), advanced);
                }
            }
        }
        proof {
            let q = self.false_candidates.items();
            assert forall|e: (i64, i64)| #[trigger] q.count(e) > 0 implies e.0 > c by {
                let m = choose|m: (i64, i64)| is_least(q, m) && m.0 == lowest;
            }
            if !is_prime(c) && candidate_can_be_prime {
                let k = choose|k: i64| #[trigger] q.count((k, factor as i64)) > 0 && k <= c;
                assert(q.count((k, factor as i64)) > 0);
            }
        }
        if !candidate_can_be_prime {
            return Ok(None);
        }
        let ghost q2 = self.false_candidates.items();
        let marker: (i64, i64) = (candidate * 3, candidate);
        self.false_candidates.insert(marker)?;
        proof {
            lemma_triple(c);
            let q = self.false_candidates.items();
            assert(q.count(marker) > 0);
            assert forall|p: int|
                #![trigger is_prime(p)]
                is_prime(p) && 3 <= p <= c && p != 5 implies exists|k: i64|
                    #[trigger] q.count((k, p as i64)) > 0 by {
                if p == c {
                    assert(q.count(marker) > 0);
                } else {
                    assert(p <= last0);
                    let k = choose|k: i64| #[trigger] q2.count((k, p as i64)) > 0;
                    assert(q.count((k, p as i64)) > 0);
                }
            }
        }
        let i = self.prime_index;
        self.prime_index = self.prime_index + 1;
        Ok(Some((i, candidate)))
    }

    /// Emits primes in ascending order through `on_prime(index, prime)`, the index
    /// counting from zero over the life of the sieve, for as long as `is_active`
    /// answers true. Before each candidate it asks `is_active(emitted)`, where
    /// `emitted` is the number of primes emitted so far, and a later call goes on where
    /// this one stopped. It stops for good once the candidates reach `CANDIDATE_LIMIT`.
    ///
    /// Each round asks `is_active` once and, on true, takes one step of `advance`,
    /// handing the prime it finds, if any, to `on_prime`. So on success:
    /// - every index `k` from the old count up to the new one was handed to `on_prime`
    ///   together with the `k`-th prime, after `is_active(k)` answered true;
    /// - it stopped because `is_active` answered false for the final count, or the
    ///   sieve reached its limits.
    ///
    /// `on_prime` need only accept `(i, p)` where `p` is the `i`-th prime and
    /// `is_active(i)` may answer true; a caller whose `is_active` never answers true may
    /// pass an `on_prime` that accepts no call at all, and the sieve is then left as it
    /// was.
    pub fn crunch<FCancelled, FOnPrime>(
        &mut self,
        is_active: FCancelled,
        on_prime: FOnPrime,
    ) -> (r: Result<(), StorageFault>) where
        FCancelled: FnMut(usize) -> bool,
        FOnPrime: FnMut(usize, i64),

        requires
            old(self).wf(),
            forall|n: usize| #[trigger] is_active.requires((n,)),
            forall|i: usize, p: i64|
                is_nth_prime(i as int, p as int) && is_active.ensures((i,), true)
                    ==> #[trigger] on_prime.requires((i, p)),
        ensures
            r is Ok ==> {
                &&& final(self).wf()
                &&& old(self).primes_emitted() <= final(self).primes_emitted()
                &&& old(self).last_examined() <= final(self).last_examined()
                &&& final(self).primes_emitted() == prime_count(final(self).last_examined())
                &&& is_active.ensures((final(self).primes_emitted() as usize,), false)
                    || final(self).last_examined() + 4 >= CANDIDATE_LIMIT
                    || final(self).primes_emitted() == usize::MAX
                &&& forall|k: usize|
                    old(self).primes_emitted() <= k < final(self).primes_emitted()
                        ==> #[trigger] handed_over(is_active, on_prime, k)
            },
            (forall|n: usize, b: bool| #[trigger] is_active.ensures((n,), b) ==> !b) ==> (r is Ok
                && *final(self) == *old(self)),
    {
        let mut asking = is_active;
        let mut emit = on_prime;
        loop
            invariant
                asking == is_active,
                emit == on_prime,
                self.wf(),
                forall|n: usize| #[trigger] is_active.requires((n,)),
                forall|i: usize, p: i64|
                    is_nth_prime(i as int, p as int) && is_active.ensures((i,), true)
                        ==> #[trigger] on_prime.requires((i, p)),
                old(self).prime_index <= self.prime_index,
                old(self).last_candidate <= self.last_candidate,
                forall|k: usize|
                    old(self).prime_index <= k < self.prime_index ==> #[trigger] handed_over(
                        is_active,
                        on_prime,
                        k,
                    ),
                (forall|n: usize, b: bool| #[trigger] is_active.ensures((n,), b) ==> !b) ==> *self
                    == *old(self),
            decreases CANDIDATE_LIMIT - self.last_candidate,
        {
            let asked = self.prime_index;
            let active = asking(asked);
            proof {
                assert(is_active.ensures((asked,), active));
            }
            if !active {
                return Ok(());
            }
            if self.last_candidate >= CANDIDATE_LIMIT - 4 || self.prime_index == usize::MAX {
                return Ok(());
            }
            let found = self.advance()?;
            if let Some((index, prime)) = found {
                emit(index, prime);
                proof {
                    assert(index == asked);
                    assert(is_active.ensures((index,), true));
                    assert(on_prime.ensures((index, prime), ()));
                    assert(handed_over(is_active, on_prime, index));
                    assert forall|k: usize|
                        old(self).prime_index <= k < self.prime_index implies #[trigger] handed_over(
                        is_active,
                        on_prime,
                        k,
                    ) by {
                        if k < index {
                            assert(handed_over(is_active, on_prime, k));
                        }
                    }
                }
            }
        }
    }
}

} // verus!
