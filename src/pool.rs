//! Ordered backend sets, health maps, and the snapshot that pairs them.
use std::collections::HashMap;
use vstd::prelude::*;

use crate::backend::Backend;

verus! {

broadcast use vstd::std_specs::hash::group_hash_axioms;

/// Identities strictly increase along the sequence.
pub open spec fn sorted_by_identity(s: Seq<Backend>) -> bool {
    forall|i: int, j: int| 0 <= i < j < s.len() ==> s[i].identity < s[j].identity
}

pub open spec fn has_identity(s: Seq<Backend>, id: u64) -> bool {
    exists|i: int| 0 <= i < s.len() && s[i].identity == id
}

/// `t` is `s` after inserting `b`: unchanged when an entry already has the
/// identity of `b`, otherwise `s` with `b` placed at one position.
pub open spec fn inserted(s: Seq<Backend>, t: Seq<Backend>, b: Backend) -> bool {
    if has_identity(s, b.identity) {
        t == s
    } else {
        exists|p: int| 0 <= p <= s.len() && t == s.insert(p, b)
    }
}

/// After an insertion, an identity is present exactly when it was before or
/// is that of the inserted backend, and every entry is the inserted backend or an old one.
pub proof fn lemma_inserted_members(s: Seq<Backend>, t: Seq<Backend>, b: Backend)
    requires
        inserted(s, t, b),
    ensures
        forall|id: u64| has_identity(t, id) <==> (has_identity(s, id) || id == b.identity),
        forall|x: Backend| #[trigger] t.contains(x) ==> x == b || s.contains(x),
        forall|x: Backend| #[trigger] s.contains(x) ==> t.contains(x),
{
    if !has_identity(s, b.identity) {
        let p = choose|p: int| 0 <= p <= s.len() && t == s.insert(p, b);
        assert forall|id: u64| has_identity(t, id) <==> (has_identity(s, id) || id == b.identity) by {
            if has_identity(t, id) {
                let j = choose|j: int| 0 <= j < t.len() && t[j].identity == id;
                if j < p {
                    assert(s[j] == t[j]);
                } else if j > p {
                    assert(s[j - 1] == t[j]);
                }
            }
            if has_identity(s, id) {
                let j = choose|j: int| 0 <= j < s.len() && s[j].identity == id;
                if j < p {
                    assert(t[j] == s[j]);
                } else {
                    assert(t[j + 1] == s[j]);
                }
            }
            if id == b.identity {
                assert(t[p] == b);
            }
        }
        assert forall|x: Backend| #[trigger] t.contains(x) implies x == b || s.contains(x) by {
            let j = choose|j: int| 0 <= j < t.len() && t[j] == x;
            if j < p {
                assert(s[j] == x);
            } else if j > p {
                assert(s[j - 1] == x);
            }
        }
        assert forall|x: Backend| #[trigger] s.contains(x) implies t.contains(x) by {
            let j = choose|j: int| 0 <= j < s.len() && s[j] == x;
            if j < p {
                assert(t[j] == x);
            } else {
                assert(t[j + 1] == x);
            }
        }
    }
}

/// Inserting two backends built from the same address leaves exactly one
/// entry of that identity: the second insertion changes nothing, and into an
/// empty set the pair of insertions leaves a set of one.
pub proof fn insert_same_address_keeps_one(
    s: Seq<Backend>,
    s1: Seq<Backend>,
    s2: Seq<Backend>,
    a: Backend,
    b: Backend,
)
    requires
        sorted_by_identity(s),
        a.wf(),
        b.wf(),
        a.address@ == b.address@,
        inserted(s, s1, a),
        inserted(s1, s2, b),
    ensures
        s2 == s1,
        has_identity(s2, a.identity),
        forall|i: int, j: int|
            0 <= i < s2.len() && 0 <= j < s2.len() && s2[i].identity == a.identity
                && s2[j].identity == a.identity ==> i == j,
        s.len() == 0 ==> s2.len() == 1,
{
    lemma_inserted_members(s, s1, a);
    assert(has_identity(s1, a.identity));
    assert(s2 == s1);
    if !has_identity(s, a.identity) {
        let p = choose|p: int| 0 <= p <= s.len() && s1 == s.insert(p, a);
        assert forall|i: int, j: int|
            0 <= i < s2.len() && 0 <= j < s2.len() && s2[i].identity == a.identity
                && s2[j].identity == a.identity implies i == j by {
            if i != p {
                let ii = if i < p { i } else { i - 1 };
                assert(s[ii] == s1[i]);
            }
            if j != p {
                let jj = if j < p { j } else { j - 1 };
                assert(s[jj] == s1[j]);
            }
        }
    }
}

/// Backends without two entries of one identity, in ascending identity order.
pub struct BackendSet {
    items: Vec<Backend>,
}

impl View for BackendSet {
    type V = Seq<Backend>;

    closed spec fn view(&self) -> Seq<Backend> {
        self.items@
    }
}

impl BackendSet {
    pub open spec fn wf(&self) -> bool {
        sorted_by_identity(self@)
    }

    pub fn new() -> (r: BackendSet)
        ensures
            r.wf(),
            r@ == Seq::<Backend>::empty(),
    {
        BackendSet { items: Vec::new() }
    }

    pub fn len(&self) -> (r: usize)
        ensures
            r == self@.len(),
    {
        self.items.len()
    }

    pub fn is_empty(&self) -> (r: bool)
        ensures
            r == (self@.len() == 0),
    {
        self.items.len() == 0
    }

    /// The backend at position `i` in identity order.
    pub fn get(&self, i: usize) -> (r: &Backend)
        requires
            i < self@.len(),
        ensures
            *r == self@[i as int],
    {
        &self.items[i]
    }

    pub fn contains_identity(&self, id: u64) -> (r: bool)
        ensures
            r == has_identity(self@, id),
    {
        let mut i: usize = 0;
        while i < self.items.len()
            invariant
                i <= self@.len(),
                forall|j: int| 0 <= j < i ==> self@[j].identity != id,
            decreases self@.len() - i,
        {
            if self.items[i].identity == id {
                return true;
            }
            i = i + 1;
        }
        false
    }

    /// Adds `b` unless a backend of the same identity is already there.
    pub fn insert(&mut self, b: Backend)
        requires
            old(self).wf(),
        ensures
            final(self).wf(),
            inserted(old(self)@, final(self)@, b),
    {
        let n = self.items.len();
        let mut i: usize = 0;
        while i < n && self.items[i].identity < b.identity
            invariant
                i <= n,
                n == self.items.len(),
                self.items@ == old(self).items@,
                forall|j: int| 0 <= j < i ==> self@[j].identity < b.identity,
            decreases n - i,
        {
            i = i + 1;
        }
        if i < n && self.items[i].identity == b.identity {
            return;
        }
        proof {
            assert forall|j: int| 0 <= j < n implies self@[j].identity != b.identity by {
                if j >= i {
                    assert(self@[i as int].identity > b.identity);
                }
            }
        }
        let ghost s = self@;
        self.items.insert(i, b);
        proof {
            assert(self@ == s.insert(i as int, b));
            assert(sorted_by_identity(self@)) by {
                assert forall|x: int, y: int| 0 <= x < y < self@.len() implies self@[x].identity
                    < self@[y].identity by {
                    if y < i {
                    } else if y == i {
                    } else if x < i {
                        assert(s[y - 1].identity >= s[i as int].identity || y - 1 == i);
                    } else if x == i {
                        assert(s[y - 1].identity >= s[i as int].identity || y - 1 == i);
                    } else {
                        assert(s[x - 1].identity < s[y - 1].identity);
                    }
                }
            }
        }
    }

    /// The backends in ascending identity order.
    pub fn iter_ordered(&self) -> (r: Vec<Backend>)
        ensures
            r@ == self@,
    {
        let mut out: Vec<Backend> = Vec::new();
        let mut i: usize = 0;
        while i < self.items.len()
            invariant
                i <= self@.len(),
                out@ == self@.subrange(0, i as int),
            decreases self@.len() - i,
        {
            out.push(self.items[i].clone());
            i = i + 1;
            assert(out@ =~= self@.subrange(0, i as int));
        }
        assert(self@.subrange(0, self@.len() as int) =~= self@);
        out
    }
}

/// Absence from the map counts as healthy.
pub open spec fn healthy_in(m: Map<u64, bool>, id: u64) -> bool {
    !m.contains_key(id) || m[id]
}

/// Liveness of backends, by identity.
pub struct HealthMap {
    map: HashMap<u64, bool>,
}

impl View for HealthMap {
    type V = Map<u64, bool>;

    closed spec fn view(&self) -> Map<u64, bool> {
        self.map@
    }
}

impl HealthMap {
    pub fn new() -> (r: HealthMap)
        ensures
            r@ == Map::<u64, bool>::empty(),
    {
        HealthMap { map: HashMap::new() }
    }

    /// Records the liveness of the backend of identity `id`.
    pub fn mark_health(&mut self, id: u64, healthy: bool)
        ensures
            final(self)@ == old(self)@.insert(id, healthy),
    {
        self.map.insert(id, healthy);
    }

    pub fn get(&self, id: u64) -> (r: Option<bool>)
        ensures
            r == (if self@.contains_key(id) {
                Some(self@[id])
            } else {
                None::<bool>
            }),
    {
        match self.map.get(&id) {
            Some(v) => Some(*v),
            None => None,
        }
    }

    pub fn is_healthy(&self, id: u64) -> (r: bool)
        ensures
            r == healthy_in(self@, id),
    {
        match self.map.get(&id) {
            Some(v) => *v,
            None => true,
        }
    }
}

} // verus!
