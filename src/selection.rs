//! Selection algorithms: each maps a request key to a raw position, which the
//! load balancer reduces modulo the pool size.
use std::collections::hash_map::DefaultHasher;
use std::hash::Hasher;
use vstd::arithmetic::div_mod::{lemma_add_mod_noop, lemma_mod_add_multiples_vanish, lemma_small_mod};
use vstd::prelude::*;
use vstd::std_specs::hash::DefaultHasherAdditionalSpecFns;

verus! {

/// What `rand::random` promises: nothing beyond a value of the type.
pub assume_specification<T>[ rand::random::<T> ]() -> (r: T)
    where
        rand::distributions::Standard: rand::distributions::Distribution<T>,
;

/// A strategy that turns a request key into a raw position.
pub trait SelectionAlgorithm: Sized {
    /// Whether `next` may be called.
    spec fn ready(&self) -> bool;

    /// One call of `next` on `self` with `key` may leave `after` and return `r`.
    spec fn next_step(&self, key: Seq<u8>, after: Self, r: u64) -> bool;

    /// `s` is a fresh algorithm for a pool of `backends` entries.
    spec fn built_for(backends: usize, s: Self) -> bool;

    /// Builds the algorithm for a pool of `backends` entries.
    fn new(backends: usize) -> (r: Self)
        ensures
            Self::built_for(backends, r),
    ;

    fn is_ready(&self) -> (r: bool)
        ensures
            r == self.ready(),
    ;

    /// The raw position for `key`.
    fn next(&mut self, key: &[u8]) -> (r: u64)
        requires
            old(self).ready(),
        ensures
            old(self).next_step(key@, *final(self), r),
    ;
}

/// Round-robin selection: a counter, read and advanced once per call.
pub struct RoundRobin(u64);

impl View for RoundRobin {
    type V = u64;

    closed spec fn view(&self) -> u64 {
        self.0
    }
}

/// The counter after one step, wrapping at the top of `u64`.
pub open spec fn counter_after(c: u64) -> u64 {
    if c == u64::MAX {
        0
    } else {
        (c + 1) as u64
    }
}

impl SelectionAlgorithm for RoundRobin {
    open spec fn ready(&self) -> bool {
        true
    }

    open spec fn next_step(&self, key: Seq<u8>, after: Self, r: u64) -> bool {
        r == self@ && after@ == counter_after(self@)
    }

    open spec fn built_for(backends: usize, s: Self) -> bool {
        s@ == 0
    }

    fn new(backends: usize) -> (r: Self) {
        RoundRobin(0)
    }

    fn is_ready(&self) -> (r: bool) {
        true
    }

    fn next(&mut self, key: &[u8]) -> (r: u64) {
        let r = self.0;
        self.0 = if r == u64::MAX {
            0
        } else {
            r + 1
        };
        r
    }
}

/// Random selection: every call draws a fresh 64-bit value.
pub struct Random;

impl SelectionAlgorithm for Random {
    open spec fn ready(&self) -> bool {
        true
    }

    /// The drawn value is unconstrained; the selector itself is left as it was.
    open spec fn next_step(&self, key: Seq<u8>, after: Self, r: u64) -> bool {
        after == *self
    }

    open spec fn built_for(backends: usize, s: Self) -> bool {
        s == Random
    }

    fn new(backends: usize) -> (r: Self) {
        Random
    }

    fn is_ready(&self) -> (r: bool) {
        true
    }

    fn next(&mut self, key: &[u8]) -> (r: u64) {
        rand::random::<u64>()
    }
}

/// The default hasher fed `key` once.
pub open spec fn key_hash(key: Seq<u8>) -> u64 {
    DefaultHasher::spec_finish(Seq::<Seq<u8>>::empty().push(key))
}

/// Hash selection: the hash of the key modulo the pool size fixed at construction.
pub struct HashLB(usize);

impl View for HashLB {
    type V = usize;

    closed spec fn view(&self) -> usize {
        self.0
    }
}

impl SelectionAlgorithm for HashLB {
    open spec fn ready(&self) -> bool {
        self@ > 0
    }

    open spec fn next_step(&self, key: Seq<u8>, after: Self, r: u64) -> bool {
        after@ == self@ && r == key_hash(key) % (self@ as u64)
    }

    open spec fn built_for(backends: usize, s: Self) -> bool {
        s@ == backends
    }

    fn new(backends: usize) -> (r: Self) {
        HashLB(backends)
    }

    fn is_ready(&self) -> (r: bool) {
        self.0 > 0
    }

    fn next(&mut self, key: &[u8]) -> (r: u64) {
        let mut hasher = DefaultHasher::new();
        hasher.write(key);
        let h = hasher.finish();
        h % (self.0 as u64)
    }
}

impl HashLB {
    /// The pool size the algorithm was built for.
    pub fn backends(&self) -> (r: usize)
        ensures
            r == self@,
    {
        self.0
    }
}

/// Where a raw value lands in a pool of `n`.
pub open spec fn position(r: u64, n: nat) -> int {
    r as int % n as int
}

/// Some raw value in `results` lands on position `j` of a pool of `n`.
pub open spec fn reached(results: Seq<u64>, n: nat, j: int) -> bool {
    exists|k: int| 0 <= k < results.len() && position(results[k], n) == j
}

proof fn lemma_mod_two_ranges(x: int, n: int)
    requires
        0 < n,
        0 <= x < 2 * n,
    ensures
        x % n == (if x < n {
            x
        } else {
            x - n
        }),
{
    if x < n {
        lemma_small_mod(x as nat, n as nat);
    } else {
        lemma_mod_add_multiples_vanish(x - n, n);
        lemma_small_mod((x - n) as nat, n as nat);
    }
}

proof fn lemma_round_robin_counter(
    states: Seq<RoundRobin>,
    keys: Seq<Seq<u8>>,
    results: Seq<u64>,
    n: nat,
    k: int,
)
    requires
        states.len() == n + 1,
        keys.len() == n,
        results.len() == n,
        forall|k: int| 0 <= k < n ==> #[trigger] states[k].next_step(keys[k], states[k + 1], results[k]),
        states[0]@ + n <= u64::MAX,
        0 <= k <= n,
    ensures
        states[k]@ == states[0]@ + k,
    decreases k,
{
    if k > 0 {
        lemma_round_robin_counter(states, keys, results, n, k - 1);
        let j = k - 1;
        assert(states[j].next_step(keys[j], states[j + 1], results[j]));
    }
}

/// Round robin over a pool of `n` healthy backends: `n` consecutive calls,
/// each made on the state the previous one left, return raw positions that
/// modulo `n` go through the pool in order, one position after the other,
/// and reach every position exactly once (as long as the counter does not wrap).
pub proof fn round_robin_visits_every_position(
    states: Seq<RoundRobin>,
    keys: Seq<Seq<u8>>,
    results: Seq<u64>,
    n: nat,
)
    requires
        n > 0,
        states.len() == n + 1,
        keys.len() == n,
        results.len() == n,
        forall|k: int| 0 <= k < n ==> #[trigger] states[k].next_step(keys[k], states[k + 1], results[k]),
        states[0]@ + n <= u64::MAX,
    ensures
        forall|k: int| 0 <= k < n ==> #[trigger] position(results[k], n) == (states[0]@ as int % n as int + k) % (n as int),
        forall|j: int| 0 <= j < n ==> #[trigger] reached(results, n, j),
        forall|k1: int, k2: int|
            0 <= k1 < n && 0 <= k2 < n && k1 != k2 ==> #[trigger] position(results[k1], n) != #[trigger] position(results[k2], n),
{
    let c = states[0]@;
    let ni = n as int;
    let r0 = c as int % ni;
    assert forall|k: int| 0 <= k < n implies results[k] == c + k && #[trigger] states[k]@ == c + k by {
        lemma_round_robin_counter(states, keys, results, n, k);
        assert(states[k].next_step(keys[k], states[k + 1], results[k]));
    }
    assert forall|k: int| 0 <= k < n implies #[trigger] position(results[k], n) == (r0 + k) % ni by {
        assert(states[k]@ == c + k);
        lemma_add_mod_noop(c as int, k, ni);
        lemma_small_mod(k as nat, n);
    }
    assert(0 <= r0 < ni);
    assert forall|j: int| 0 <= j < n implies #[trigger] reached(results, n, j) by {
        let k = if j >= r0 {
            j - r0
        } else {
            j + ni - r0
        };
        assert(states[k]@ == c + k);
        lemma_mod_two_ranges(r0 + k, ni);
        assert(position(results[k], n) == j);
    }
    assert forall|k1: int, k2: int|
        0 <= k1 < n && 0 <= k2 < n && k1 != k2 implies #[trigger] position(results[k1], n) != #[trigger] position(results[k2], n) by {
        assert(states[k1]@ == c + k1);
        assert(states[k2]@ == c + k2);
        lemma_mod_two_ranges(r0 + k1, ni);
        lemma_mod_two_ranges(r0 + k2, ni);
    }
}

/// Hash selection is deterministic: two calls with the same key on algorithms
/// built for the same pool size return the same raw value.
pub proof fn hash_next_is_deterministic(
    a: HashLB,
    b: HashLB,
    key: Seq<u8>,
    a_after: HashLB,
    b_after: HashLB,
    ra: u64,
    rb: u64,
)
    requires
        a@ == b@,
        a.next_step(key, a_after, ra),
        b.next_step(key, b_after, rb),
    ensures
        ra == rb,
        a_after@ == b_after@,
{
}

} // verus!
