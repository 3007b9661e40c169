//! The load balancer: one live snapshot of backends and health, a selection
//! algorithm, and the refresh step that replaces the snapshot.
use vstd::arithmetic::div_mod::{lemma_add_mod_noop, lemma_mod_add_multiples_vanish, lemma_small_mod};
use vstd::prelude::*;

use crate::backend::Backend;
use crate::error::LbError;
use crate::pool::{has_identity, healthy_in, BackendSet, HealthMap};
use crate::selection::{RoundRobin, SelectionAlgorithm};

verus! {

broadcast use vstd::std_specs::hash::group_hash_axioms;

/// Attempt budget of a proxy-side selection.
pub const PROXY_MAX_ATTEMPTS: usize = 256;

/// The `k`-th probed position: linear probing from `start` reduced modulo `n`.
pub open spec fn probe(start: u64, n: nat, k: int) -> int {
    (start as int % n as int + k) % n as int
}

pub open spec fn healthy_at(s: Seq<Backend>, h: Map<u64, bool>, i: int) -> bool {
    healthy_in(h, s[i].identity)
}

/// `r` is what probing `s` from raw position `start` for at most `attempts`
/// positions gives: the first healthy backend met, or `NoHealthyBackends`.
pub open spec fn selection_result(
    s: Seq<Backend>,
    h: Map<u64, bool>,
    start: u64,
    attempts: nat,
    r: Result<Backend, LbError>,
) -> bool {
    match r {
        Ok(b) => s.len() > 0 && exists|k: int|
            0 <= k < attempts && b == s[probe(start, s.len(), k)] && healthy_at(
                s,
                h,
                probe(start, s.len(), k),
            ) && forall|k2: int|
                0 <= k2 < k ==> !healthy_at(s, h, #[trigger] probe(start, s.len(), k2)),
        Err(e) => e == LbError::NoHealthyBackends && (s.len() == 0 || forall|k: int|
            0 <= k < attempts ==> !healthy_at(s, h, #[trigger] probe(start, s.len(), k))),
    }
}

/// The health view after a refresh: one entry per discovered backend, keeping
/// the previous liveness where there was one and taking the discovered one otherwise.
pub open spec fn merged_health(s: Seq<Backend>, fresh: Map<u64, bool>, prev: Map<u64, bool>) -> Map<
    u64,
    bool,
> {
    Map::new(
        |id: u64| has_identity(s, id),
        |id: u64|
            if prev.contains_key(id) {
                prev[id]
            } else {
                healthy_in(fresh, id)
            },
    )
}

proof fn lemma_probe_step(start: u64, n: nat, k: int, cur: int)
    requires
        n > 0,
        k >= 0,
        cur == probe(start, n, k),
    ensures
        0 <= cur < n,
        probe(start, n, k + 1) == (if cur + 1 == n {
            0
        } else {
            cur + 1
        }),
{
    let ni = n as int;
    let x = start as int % ni + k;
    assert(0 <= start as int % ni < ni) by {
        vstd::arithmetic::div_mod::lemma_mod_bound(start as int, ni);
    }
    vstd::arithmetic::div_mod::lemma_mod_bound(x, ni);
    lemma_add_mod_noop(x, 1, ni);
    if n == 1 {
        lemma_small_mod(0, 1);
        assert(cur == 0);
        assert(1int % 1 == 0);
        assert((x + 1) % 1 == 0);
    } else {
        lemma_small_mod(1, n);
        if cur + 1 == n {
            lemma_mod_add_multiples_vanish(0, ni);
        } else {
            lemma_small_mod((cur + 1) as nat, n);
        }
    }
}

proof fn lemma_probe_covers(start: u64, n: nat, i: int)
    requires
        n > 0,
        0 <= i < n,
    ensures
        exists|k: int| 0 <= k < n && probe(start, n, k) == i,
{
    let ni = n as int;
    let r0 = start as int % ni;
    vstd::arithmetic::div_mod::lemma_mod_bound(start as int, ni);
    let k = if i >= r0 {
        i - r0
    } else {
        i + ni - r0
    };
    if r0 + k < ni {
        lemma_small_mod((r0 + k) as nat, n);
    } else {
        lemma_mod_add_multiples_vanish(r0 + k - ni, ni);
        lemma_small_mod((r0 + k - ni) as nat, n);
    }
    assert(probe(start, n, k) == i);
}

/// An immutable pairing of the backends and their health.
pub struct Snapshot {
    pub backends: BackendSet,
    pub health: HealthMap,
}

impl Snapshot {
    pub open spec fn wf(&self) -> bool {
        self.backends.wf()
    }

    pub fn new(backends: BackendSet, health: HealthMap) -> (r: Snapshot)
        ensures
            r.backends == backends,
            r.health == health,
    {
        Snapshot { backends, health }
    }
}

/// Picks from `snapshot` by linear probing from raw position `start`, trying
/// at most `max_attempts` positions.
pub fn select_from(snapshot: &Snapshot, start: u64, max_attempts: usize) -> (r: Result<
    Backend,
    LbError,
>)
    ensures
        selection_result(snapshot.backends@, snapshot.health@, start, max_attempts as nat, r),
        snapshot.backends@.len() == 0 ==> r == Err::<Backend, LbError>(LbError::NoHealthyBackends),
        (forall|i: int|
            0 <= i < snapshot.backends@.len() ==> !healthy_at(
                snapshot.backends@,
                snapshot.health@,
                i,
            )) ==> r == Err::<Backend, LbError>(LbError::NoHealthyBackends),
        snapshot.backends@.len() > 0 && max_attempts >= snapshot.backends@.len() && (exists|i: int|
            0 <= i < snapshot.backends@.len() && healthy_at(snapshot.backends@, snapshot.health@, i))
            ==> r is Ok,
{
    let ghost s = snapshot.backends@;
    let ghost h = snapshot.health@;
    let n = snapshot.backends.len();
    if n == 0 {
        return Err(LbError::NoHealthyBackends);
    }
    let mut cur: usize = (start % (n as u64)) as usize;
    proof {
        lemma_small_mod((start as int % n as int) as nat, n as nat);
    }
    let mut k: usize = 0;
    while k < max_attempts
        invariant
            n == s.len(),
            n > 0,
            s == snapshot.backends@,
            h == snapshot.health@,
            k <= max_attempts,
            cur == probe(start, n as nat, k as int),
            forall|k2: int| 0 <= k2 < k ==> !healthy_at(s, h, #[trigger] probe(start, n as nat, k2)),
        decreases max_attempts - k,
    {
        proof {
            lemma_probe_step(start, n as nat, k as int, cur as int);
        }
        let b = snapshot.backends.get(cur);
        if snapshot.health.is_healthy(b.identity) {
            return Ok(b.clone());
        }
        cur = if cur + 1 == n {
            0
        } else {
            cur + 1
        };
        k = k + 1;
    }
    proof {
        if max_attempts >= n {
            assert forall|i: int| 0 <= i < n implies !healthy_at(s, h, i) by {
                lemma_probe_covers(start, n as nat, i);
                let kk = choose|kk: int| 0 <= kk < n && probe(start, n as nat, kk) == i;
                assert(!healthy_at(s, h, probe(start, n as nat, kk)));
            }
        }
    }
    Err(LbError::NoHealthyBackends)
}

/// Holds the live snapshot and the selection algorithm.
pub struct LoadBalancer<S> {
    snapshot: Snapshot,
    selector: S,
}

impl<S: SelectionAlgorithm> LoadBalancer<S> {
    pub closed spec fn backends(&self) -> Seq<Backend> {
        self.snapshot.backends@
    }

    pub closed spec fn health(&self) -> Map<u64, bool> {
        self.snapshot.health@
    }

    pub closed spec fn selector(&self) -> S {
        self.selector
    }

    pub closed spec fn wf(&self) -> bool {
        self.snapshot.backends.wf()
    }

    /// Starts from a snapshot, with the algorithm built for its size.
    pub fn new(snapshot: Snapshot) -> (r: LoadBalancer<S>)
        requires
            snapshot.wf(),
        ensures
            r.wf(),
            r.backends() == snapshot.backends@,
            r.health() == snapshot.health@,
            S::built_for(snapshot.backends@.len() as usize, r.selector()),
    {
        let n = snapshot.backends.len();
        LoadBalancer { snapshot, selector: S::new(n) }
    }

    /// The live snapshot.
    pub fn snapshot(&self) -> (r: &Snapshot)
        ensures
            r.backends@ == self.backends(),
            r.health@ == self.health(),
    {
        &self.snapshot
    }

    /// Picks a backend for `key`: empty pool and unusable algorithm are
    /// refused, otherwise the algorithm gives a raw position and the
    /// snapshot is probed from there.
    pub fn select(&mut self, key: &[u8], max_attempts: usize) -> (r: Result<Backend, LbError>)
        ensures
            final(self).backends() == old(self).backends(),
            final(self).health() == old(self).health(),
            final(self).wf() == old(self).wf(),
            old(self).backends().len() == 0 ==> r == Err::<Backend, LbError>(
                LbError::NoHealthyBackends,
            ) && final(self).selector() == old(self).selector(),
            old(self).backends().len() > 0 && !old(self).selector().ready() ==> r == Err::<
                Backend,
                LbError,
            >(LbError::NoBackendsAvailable) && final(self).selector() == old(self).selector(),
            old(self).backends().len() > 0 && old(self).selector().ready() ==> exists|v: u64|
                old(self).selector().next_step(key@, final(self).selector(), v)
                    && selection_result(
                    old(self).backends(),
                    old(self).health(),
                    v,
                    max_attempts as nat,
                    r,
                ),
            (forall|i: int|
                0 <= i < old(self).backends().len() ==> !healthy_at(
                    old(self).backends(),
                    old(self).health(),
                    i,
                )) ==> r is Err,
            old(self).backends().len() > 0 && old(self).selector().ready() && max_attempts
                >= old(self).backends().len() && (exists|i: int|
                0 <= i < old(self).backends().len() && healthy_at(
                    old(self).backends(),
                    old(self).health(),
                    i,
                )) ==> r is Ok,
            r matches Ok(b) ==> exists|i: int|
                0 <= i < old(self).backends().len() && b == old(self).backends()[i] && healthy_at(
                    old(self).backends(),
                    old(self).health(),
                    i,
                ),
    {
        if self.snapshot.backends.is_empty() {
            return Err(LbError::NoHealthyBackends);
        }
        if !self.selector.is_ready() {
            return Err(LbError::NoBackendsAvailable);
        }
        let v = self.selector.next(key);
        let r = select_from(&self.snapshot, v, max_attempts);
        proof {
            if r is Ok {
                let b = r->Ok_0;
                let n = self.snapshot.backends@.len();
                let k = choose|k: int|
                    0 <= k < max_attempts && b == self.snapshot.backends@[probe(v, n, k)]
                        && healthy_at(
                        self.snapshot.backends@,
                        self.snapshot.health@,
                        probe(v, n, k),
                    ) && forall|k2: int|
                        0 <= k2 < k ==> !healthy_at(
                            self.snapshot.backends@,
                            self.snapshot.health@,
                            #[trigger] probe(v, n, k2),
                        );
                vstd::arithmetic::div_mod::lemma_mod_bound(v as int % n as int + k, n as int);
                assert(0 <= probe(v, n, k) < n);
            }
        }
        r
    }

    /// Applies the outcome of one discovery round. On success the
    /// discovered backends replace the old ones and their health is merged
    /// with what was known; on failure the snapshot stays as it was and the
    /// error is handed back.
    pub fn update(&mut self, discovered: Result<(BackendSet, HealthMap), LbError>) -> (r: Result<
        (),
        LbError,
    >)
        requires
            discovered matches Ok(d) ==> d.0.wf(),
        ensures
            old(self).wf() ==> final(self).wf(),
            final(self).selector() == old(self).selector(),
            match discovered {
                Ok(d) => r is Ok && final(self).backends() == d.0@ && final(self).health()
                    == merged_health(d.0@, d.1@, old(self).health()),
                Err(e) => r == Err::<(), LbError>(e) && final(self).backends() == old(
                    self,
                ).backends() && final(self).health() == old(self).health(),
            },
    {
        match discovered {
            Ok((set, fresh)) => {
                let health = merge_health(&set, &fresh, &self.snapshot.health);
                self.snapshot = Snapshot { backends: set, health };
                Ok(())
            },
            Err(e) => Err(e),
        }
    }

    /// Records what a health probe found for the backend of identity `id`.
    pub fn mark_health(&mut self, id: u64, healthy: bool)
        ensures
            final(self).wf() == old(self).wf(),
            final(self).backends() == old(self).backends(),
            final(self).selector() == old(self).selector(),
            final(self).health() == old(self).health().insert(id, healthy),
    {
        self.snapshot.health.mark_health(id, healthy);
    }
}

/// Builds the health view of a refresh: one entry per discovered backend,
/// the previous liveness where known, else the discovered one.
pub fn merge_health(set: &BackendSet, fresh: &HealthMap, prev: &HealthMap) -> (r: HealthMap)
    ensures
        r@ == merged_health(set@, fresh@, prev@),
{
    let mut out = HealthMap::new();
    let mut i: usize = 0;
    while i < set.len()
        invariant
            i <= set@.len(),
            out@ == merged_health(set@.subrange(0, i as int), fresh@, prev@),
        decreases set@.len() - i,
    {
        let b = set.get(i);
        let v = match prev.get(b.identity) {
            Some(h) => h,
            None => fresh.is_healthy(b.identity),
        };
        let ghost before = out@;
        out.mark_health(b.identity, v);
        proof {
            let s0 = set@.subrange(0, i as int);
            let s1 = set@.subrange(0, i + 1);
            assert forall|id: u64| has_identity(s1, id) == (has_identity(s0, id) || id
                == b.identity) by {
                if has_identity(s1, id) {
                    let j = choose|j: int| 0 <= j < s1.len() && s1[j].identity == id;
                    if j < i {
                        assert(s0[j] == s1[j]);
                    }
                }
                if has_identity(s0, id) {
                    let j = choose|j: int| 0 <= j < s0.len() && s0[j].identity == id;
                    assert(s1[j] == s0[j]);
                }
                if id == b.identity {
                    assert(s1[i as int] == *b);
                }
            }
            assert(out@ =~= merged_health(s1, fresh@, prev@));
        }
        i = i + 1;
    }
    assert(set@.subrange(0, set@.len() as int) =~= set@);
    out
}

/// The proxy-side balancer: round robin over the pool, key-independent.
pub struct LB(pub LoadBalancer<RoundRobin>);

impl LB {
    /// Picks the upstream for one request, with an empty key and the proxy's attempt budget.
    pub fn upstream_peer(&mut self) -> (r: Result<Backend, LbError>)
        ensures
            final(self).0.backends() == old(self).0.backends(),
            final(self).0.health() == old(self).0.health(),
            old(self).0.backends().len() == 0 ==> r == Err::<Backend, LbError>(
                LbError::NoHealthyBackends,
            ),
            old(self).0.backends().len() > 0 ==> selection_result(
                old(self).0.backends(),
                old(self).0.health(),
                old(self).0.selector()@,
                PROXY_MAX_ATTEMPTS as nat,
                r,
            ) && final(self).0.selector()@ == crate::selection::counter_after(
                old(self).0.selector()@,
            ),
    {
        let key: Vec<u8> = Vec::new();
        self.0.select(key.as_slice(), PROXY_MAX_ATTEMPTS)
    }
}

} // verus!
